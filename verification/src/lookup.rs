use crate::coord::Coord;
use rustc_hash::FxHashMap;
use vstd::prelude::*;

verus! {

/// Declares rustc_hash's hasher factory so that `FxHashMap` (std's `HashMap`
/// with that hasher) can appear in signatures.
#[verifier::external_type_specification]
#[verifier::external_body]
pub struct ExFxBuildHasher(rustc_hash::FxBuildHasher);

/// The packing of a position into a single integer key: the column in the
/// upper 32 bits, the row in the lower 32. Injective over all positions.
pub open spec fn key_of(c: Coord) -> u64 {
    (c.x * 0x1_0000_0000 + c.y) as u64
}

/// Executable form of `key_of`.
pub fn coord_key(c: &Coord) -> (k: u64)
    ensures
        k == key_of(*c),
{
    (c.x as u64) * 0x1_0000_0000u64 + (c.y as u64)
}

/// Distinct positions pack to distinct keys.
pub proof fn lemma_key_injective(a: Coord, b: Coord)
    ensures
        key_of(a) == key_of(b) ==> a == b,
{
    if key_of(a) == key_of(b) {
        assert(a.x == b.x && a.y == b.y) by {
            assert(a.x * 0x1_0000_0000 + a.y == b.x * 0x1_0000_0000 + b.y);
        }
    }
}

/// Relies on rustc_hash::FxHashMap::default (std's HashMap with the Fx
/// hasher): a freshly made map is empty.
#[verifier::external_body]
pub fn table_new() -> (r: FxHashMap<u64, usize>)
    ensures
        forall|k: u64| !r@.dom().contains(k),
{
    FxHashMap::default()
}

/// Relies on std HashMap::insert (through FxHashMap): afterwards the map
/// holds `v` under `k` and is otherwise unchanged.
#[verifier::external_body]
pub fn table_insert(m: &mut FxHashMap<u64, usize>, k: u64, v: usize)
    ensures
        final(m)@ == old(m)@.insert(k, v),
{
    m.insert(k, v);
}

/// Relies on std HashMap::get (through FxHashMap): returns a copy of the
/// value stored under `k`, or None when no entry has that key.
#[verifier::external_body]
pub fn table_get(m: &FxHashMap<u64, usize>, k: u64) -> (r: Option<usize>)
    ensures
        r == (if m@.dom().contains(k) {
            Some(m@[k])
        } else {
            None::<usize>
        }),
{
    m.get(&k).copied()
}

} // verus!
