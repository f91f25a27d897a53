//! The session table: an opaque session id mapped to the arena index of the
//! session's current directory.  The table is a hashbrown hash map, seen by
//! the proofs only through its abstract contents.

use vstd::prelude::*;

verus! {

#[verifier::external_type_specification]
#[verifier::external_body]
#[verifier::reject_recursive_types(K)]
#[verifier::reject_recursive_types(V)]
#[verifier::reject_recursive_types(S)]
pub struct ExHashMap<K, V, S>(hashbrown::HashMap<K, V, S>);

#[verifier::external_type_specification]
#[verifier::external_body]
pub struct ExRandomState(hashbrown::hash_map::DefaultHashBuilder);

/// The table type the volume holds: session id to arena index.
pub type SessionTable = hashbrown::HashMap<u64, u64, hashbrown::hash_map::DefaultHashBuilder>;

/// What the table holds.
pub uninterp spec fn session_map(m: SessionTable) -> Map<u64, u64>;

/// The empty table contents.
pub open spec fn no_sessions() -> Map<u64, u64> {
    Map::empty()
}

/// Relies on hashbrown's `HashMap::new`: a freshly made map is empty.
#[verifier::external_body]
pub fn session_table_new() -> (m: SessionTable)
    ensures
        session_map(m) == no_sessions(),
{
    hashbrown::HashMap::new()
}

/// Relies on hashbrown's `HashMap::insert`: the key maps to the value
/// afterwards, and no other key changes.
#[verifier::external_body]
pub fn session_table_insert(m: &mut SessionTable, k: u64, v: u64)
    ensures
        session_map(*final(m)) == session_map(*old(m)).insert(k, v),
{
    m.insert(k, v);
}

/// Relies on hashbrown's `HashMap::get`: the value the key maps to, if any.
#[verifier::external_body]
pub fn session_table_get(m: &SessionTable, k: u64) -> (r: Option<u64>)
    ensures
        r == if session_map(*m).dom().contains(k) {
            Some(session_map(*m)[k])
        } else {
            None::<u64>
        },
{
    m.get(&k).copied()
}

} // verus!
