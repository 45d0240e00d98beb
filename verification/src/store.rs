//! The persistent property cache.
//!
//! A table keyed by (interface, path) maps to (value bytes, declared major
//! version).  Reads are version-aware: a row whose stored major version does
//! not match the requested one is purged as a side effect of the read and
//! reported as absent, so stale-schema data is never returned.

use vstd::prelude::*;
use vstd::slice::slice_to_vec;

use crate::codec::{decode_payload, decode_stored, encode_value};
use crate::str_eq;
use crate::types::{Aggregation, AggregationModel, AstarteType, ValueModel};

verus! {

/// Errors of the property cache.
#[derive(Clone, Debug, PartialEq)]
pub enum AstarteError {
    /// A storage-engine failure, surfaced verbatim.
    Database(String),
    /// A stored payload did not decode.
    Decode(String),
    /// An internal invariant violation: an aggregate value was found where
    /// only scalars are permitted.
    Reported(String),
}

/// One stored property row.
#[derive(Clone, Debug, PartialEq)]
pub struct StoredProp {
    pub interface: String,
    pub path: String,
    pub value: Vec<u8>,
    pub interface_major: i32,
}

/// The mathematical model of the table: key to (value bytes, major version).
pub type PropTable = Map<(Seq<char>, Seq<char>), (Seq<u8>, int)>;

/// The key of a row: owning interface name and property path.
pub open spec fn prop_key(p: StoredProp) -> (Seq<char>, Seq<char>) {
    (p.interface@, p.path@)
}

/// The payload of a row: value bytes and declared major version.
pub open spec fn prop_record(p: StoredProp) -> (Seq<u8>, int) {
    (p.value@, p.interface_major as int)
}

/// No two rows share a key.
pub open spec fn unique_keys(rows: Seq<StoredProp>) -> bool {
    forall|i: int, j: int| 0 <= i < j < rows.len() ==> prop_key(rows[i]) != prop_key(rows[j])
}

/// The table that a sequence of rows denotes.
pub open spec fn map_of(rows: Seq<StoredProp>) -> PropTable
    decreases rows.len(),
{
    if rows.len() == 0 {
        Map::empty()
    } else {
        map_of(rows.drop_last()).insert(prop_key(rows.last()), prop_record(rows.last()))
    }
}

/// A key is in the table exactly when some row carries it.
pub proof fn lemma_map_of_contains(rows: Seq<StoredProp>, k: (Seq<char>, Seq<char>))
    ensures
        map_of(rows).contains_key(k) <==> exists|i: int|
            0 <= i < rows.len() && prop_key(rows[i]) == k,
    decreases rows.len(),
{
    if rows.len() == 0 {
    } else {
        lemma_map_of_contains(rows.drop_last(), k);
        if prop_key(rows.last()) == k {
            assert(prop_key(rows[rows.len() - 1]) == k);
        } else {
            if map_of(rows).contains_key(k) {
                let i = choose|i: int|
                    0 <= i < rows.drop_last().len() && prop_key(rows.drop_last()[i]) == k;
                assert(prop_key(rows[i]) == k);
            }
            if exists|i: int| 0 <= i < rows.len() && prop_key(rows[i]) == k {
                let i = choose|i: int| 0 <= i < rows.len() && prop_key(rows[i]) == k;
                assert(prop_key(rows.drop_last()[i]) == k);
            }
        }
    }
}

/// Dropping the last row keeps the keys unique.
proof fn lemma_unique_keys_drop_last(rows: Seq<StoredProp>)
    requires
        unique_keys(rows),
        rows.len() > 0,
    ensures
        unique_keys(rows.drop_last()),
{
    assert forall|a: int, b: int| 0 <= a < b < rows.drop_last().len() implies prop_key(
        rows.drop_last()[a],
    ) != prop_key(rows.drop_last()[b]) by {
        assert(rows.drop_last()[a] == rows[a]);
        assert(rows.drop_last()[b] == rows[b]);
    }
}

/// Under unique keys, the table holds each row's record at its key.
pub proof fn lemma_map_of_index(rows: Seq<StoredProp>, i: int)
    requires
        unique_keys(rows),
        0 <= i < rows.len(),
    ensures
        map_of(rows).contains_key(prop_key(rows[i])),
        map_of(rows)[prop_key(rows[i])] == prop_record(rows[i]),
    decreases rows.len(),
{
    lemma_map_of_contains(rows, prop_key(rows[i]));
    if i == rows.len() - 1 {
    } else {
        lemma_unique_keys_drop_last(rows);
        lemma_map_of_index(rows.drop_last(), i);
        assert(prop_key(rows[i]) != prop_key(rows[rows.len() - 1]));
        assert(rows.drop_last()[i] == rows[i]);
    }
}

/// Appending a row inserts its record into the table.
pub proof fn lemma_map_of_push(rows: Seq<StoredProp>, p: StoredProp)
    ensures
        map_of(rows.push(p)) == map_of(rows).insert(prop_key(p), prop_record(p)),
{
    assert(rows.push(p).drop_last() =~= rows);
    assert(rows.push(p).last() == p);
}

/// Removing a row keeps the keys unique, and no remaining row carries the
/// removed key.
pub proof fn lemma_unique_keys_remove(rows: Seq<StoredProp>, i: int)
    requires
        unique_keys(rows),
        0 <= i < rows.len(),
    ensures
        unique_keys(rows.remove(i)),
        forall|j: int|
            0 <= j < rows.remove(i).len() ==> prop_key(#[trigger] rows.remove(i)[j]) != prop_key(
                rows[i],
            ),
{
    assert forall|a: int, b: int| 0 <= a < b < rows.remove(i).len() implies prop_key(
        rows.remove(i)[a],
    ) != prop_key(rows.remove(i)[b]) by {
        let a0 = if a < i {
            a
        } else {
            a + 1
        };
        let b0 = if b < i {
            b
        } else {
            b + 1
        };
        assert(rows.remove(i)[a] == rows[a0]);
        assert(rows.remove(i)[b] == rows[b0]);
    }
    assert forall|j: int| 0 <= j < rows.remove(i).len() implies prop_key(
        #[trigger] rows.remove(i)[j],
    ) != prop_key(rows[i]) by {
        let j0 = if j < i {
            j
        } else {
            j + 1
        };
        assert(rows.remove(i)[j] == rows[j0]);
    }
}

/// Appending a row with a fresh key keeps the keys unique.
pub proof fn lemma_unique_keys_push(rows: Seq<StoredProp>, p: StoredProp)
    requires
        unique_keys(rows),
        forall|j: int| 0 <= j < rows.len() ==> prop_key(rows[j]) != prop_key(p),
    ensures
        unique_keys(rows.push(p)),
{
    assert forall|a: int, b: int| 0 <= a < b < rows.push(p).len() implies prop_key(
        rows.push(p)[a],
    ) != prop_key(rows.push(p)[b]) by {
        assert(rows.push(p)[a] == rows[a]);
        if b < rows.len() {
            assert(rows.push(p)[b] == rows[b]);
        } else {
            assert(rows.push(p)[b] == p);
        }
    }
}

/// Removing a row removes exactly its key from the table.
pub proof fn lemma_map_of_remove(rows: Seq<StoredProp>, i: int)
    requires
        unique_keys(rows),
        0 <= i < rows.len(),
    ensures
        map_of(rows.remove(i)) == map_of(rows).remove(prop_key(rows[i])),
    decreases rows.len(),
{
    let k = prop_key(rows[i]);
    if i == rows.len() - 1 {
        assert(rows.remove(i) =~= rows.drop_last());
        lemma_map_of_contains(rows.drop_last(), k);
        assert(!map_of(rows.drop_last()).contains_key(k)) by {
            if exists|j: int|
                0 <= j < rows.drop_last().len() && prop_key(rows.drop_last()[j]) == k {
                let j = choose|j: int|
                    0 <= j < rows.drop_last().len() && prop_key(rows.drop_last()[j]) == k;
                assert(prop_key(rows[j]) == k);
            }
        }
        assert(map_of(rows).remove(k) =~= map_of(rows.drop_last()));
    } else {
        let last = rows.last();
        lemma_unique_keys_drop_last(rows);
        lemma_map_of_remove(rows.drop_last(), i);
        assert(rows.remove(i).drop_last() =~= rows.drop_last().remove(i));
        assert(rows.remove(i).last() == last);
        assert(prop_key(rows[i]) != prop_key(rows[rows.len() - 1]));
        assert(map_of(rows.drop_last()).remove(k).insert(prop_key(last), prop_record(last))
            =~= map_of(rows.drop_last()).insert(prop_key(last), prop_record(last)).remove(k));
        assert(map_of(rows.remove(i)) == map_of(rows.remove(i).drop_last()).insert(
            prop_key(rows.remove(i).last()),
            prop_record(rows.remove(i).last()),
        ));
    }
}

/// Two row sequences with the same keys and records denote the same table.
pub proof fn lemma_map_of_congruence(a: Seq<StoredProp>, b: Seq<StoredProp>)
    requires
        a.len() == b.len(),
        forall|i: int|
            0 <= i < a.len() ==> prop_key(#[trigger] a[i]) == prop_key(b[i]) && prop_record(a[i])
                == prop_record(b[i]),
    ensures
        map_of(a) == map_of(b),
    decreases a.len(),
{
    if a.len() == 0 {
        assert(map_of(a) =~= map_of(b));
    } else {
        assert forall|i: int|
            0 <= i < a.drop_last().len() implies prop_key(#[trigger] a.drop_last()[i]) == prop_key(
            b.drop_last()[i],
        ) && prop_record(a.drop_last()[i]) == prop_record(b.drop_last()[i]) by {
            assert(a.drop_last()[i] == a[i]);
            assert(b.drop_last()[i] == b[i]);
        }
        lemma_map_of_congruence(a.drop_last(), b.drop_last());
        assert(prop_key(a[a.len() - 1]) == prop_key(b[a.len() - 1]));
        assert(prop_record(a[a.len() - 1]) == prop_record(b[a.len() - 1]));
    }
}

/// The property-store capability.
///
/// A conforming storage engine persists per-path property values; operations
/// are fallible (an engine may fail on I/O or constraints, surfacing a
/// [`AstarteError::Database`] error), but on success the table changes
/// exactly as stated.
pub trait AstarteDatabase: Sized {
    /// The table the engine currently holds.
    spec fn props(&self) -> PropTable;

    /// The engine's internal well-formedness.
    spec fn inv(&self) -> bool;

    /// Upsert the row for (interface, path).
    fn store_prop(
        &mut self,
        interface: &str,
        path: &str,
        value: &[u8],
        interface_major: i32,
    ) -> (r: Result<(), AstarteError>)
        requires
            old(self).inv(),
        ensures
            final(self).inv(),
            r is Ok ==> final(self).props() == old(self).props().insert(
                (interface@, path@),
                (value@, interface_major as int),
            ),
            r is Err ==> final(self).props() == old(self).props(),
    ;

    /// Load the row for (interface, path), purging it when its stored major
    /// version differs from the requested one.
    fn load_prop(&mut self, interface: &str, path: &str, interface_major: i32) -> (r: Result<
        Option<AstarteType>,
        AstarteError,
    >)
        requires
            old(self).inv(),
        ensures
            final(self).inv(),
            ({
                let k = (interface@, path@);
                let m = old(self).props();
                r matches Ok(o) ==> {
                    if !m.contains_key(k) {
                        o is None && final(self).props() == m
                    } else if m[k].1 != interface_major as int {
                        o is None && final(self).props() == m.remove(k)
                    } else {
                        &&& final(self).props() == m
                        &&& decode_payload(m[k].0) matches Some(AggregationModel::Individual(v))
                            && (o matches Some(x) && x@ == v)
                    }
                }
            }),
    ;

    /// Remove the row for (interface, path) if present; absent keys succeed.
    fn delete_prop(&mut self, interface: &str, path: &str) -> (r: Result<(), AstarteError>)
        requires
            old(self).inv(),
        ensures
            final(self).inv(),
            r is Ok ==> final(self).props() == old(self).props().remove((interface@, path@)),
            r is Err ==> final(self).props() == old(self).props(),
    ;

    /// Remove every row.
    fn clear(&mut self) -> (r: Result<(), AstarteError>)
        requires
            old(self).inv(),
        ensures
            final(self).inv(),
            r is Ok ==> final(self).props() == PropTable::empty(),
            r is Err ==> final(self).props() == old(self).props(),
    ;

    /// Every stored row, in an order that is stable within one call.
    fn load_all_props(&self) -> (r: Result<Vec<StoredProp>, AstarteError>)
        requires
            self.inv(),
        ensures
            r matches Ok(v) ==> unique_keys(v@) && map_of(v@) == self.props(),
    ;
}

/// In-memory storage engine: the library's conforming implementation of the
/// property-store capability.
#[derive(Debug)]
pub struct MemoryStore {
    rows: Vec<StoredProp>,
}

impl MemoryStore {
    /// An empty store.
    pub fn new() -> (s: MemoryStore)
        ensures
            s.inv(),
            s.props() == PropTable::empty(),
    {
        MemoryStore { rows: Vec::new() }
    }

    /// The index of the row for (interface, path), if any.
    fn find_row(&self, interface: &str, path: &str) -> (r: Option<usize>)
        ensures
            match r {
                Some(i) => i < self.rows@.len() && prop_key(self.rows@[i as int]) == (
                    interface@,
                    path@,
                ),
                None => forall|i: int|
                    0 <= i < self.rows@.len() ==> prop_key(self.rows@[i]) != (interface@, path@),
            },
    {
        let n = self.rows.len();
        let mut idx: usize = 0;
        while idx < n
            invariant
                n == self.rows@.len(),
                idx <= n,
                forall|j: int| 0 <= j < idx ==> prop_key(self.rows@[j]) != (interface@, path@),
            decreases n - idx,
        {
            let row = &self.rows[idx];
            if str_eq(row.interface.as_str(), interface) && str_eq(row.path.as_str(), path) {
                return Some(idx);
            }
            idx = idx + 1;
        }
        None
    }
}

impl AstarteDatabase for MemoryStore {
    closed spec fn props(&self) -> PropTable {
        map_of(self.rows@)
    }

    closed spec fn inv(&self) -> bool {
        unique_keys(self.rows@)
    }

    fn store_prop(
        &mut self,
        interface: &str,
        path: &str,
        value: &[u8],
        interface_major: i32,
    ) -> (r: Result<(), AstarteError>)
        ensures
            r is Ok,
    {
        let ghost k = (interface@, path@);
        let ghost m0 = map_of(self.rows@);
        match self.find_row(interface, path) {
            Some(i) => {
                proof {
                    lemma_map_of_remove(self.rows@, i as int);
                    lemma_unique_keys_remove(self.rows@, i as int);
                }
                self.rows.remove(i);
            },
            None => {
                proof {
                    lemma_map_of_contains(self.rows@, k);
                    assert(map_of(self.rows@).remove(k) =~= map_of(self.rows@));
                }
            },
        }
        proof {
            assert(map_of(self.rows@) == m0.remove(k));
        }
        let row = StoredProp {
            interface: String::from_str(interface),
            path: String::from_str(path),
            value: slice_to_vec(value),
            interface_major,
        };
        proof {
            assert(prop_key(row) == k);
            lemma_map_of_push(self.rows@, row);
            lemma_unique_keys_push(self.rows@, row);
            assert(m0.remove(k).insert(k, (value@, interface_major as int)) =~= m0.insert(
                k,
                (value@, interface_major as int),
            ));
        }
        self.rows.push(row);
        Ok(())
    }

    fn load_prop(&mut self, interface: &str, path: &str, interface_major: i32) -> (r: Result<
        Option<AstarteType>,
        AstarteError,
    >)
        ensures
            ({
                let k = (interface@, path@);
                let m = old(self).props();
                &&& (!m.contains_key(k) ==> (r matches Ok(o) && o is None && final(self).props()
                    == m))
                &&& (m.contains_key(k) && m[k].1 != interface_major as int ==> (r matches Ok(o)
                    && o is None && final(self).props() == m.remove(k)))
                &&& (m.contains_key(k) && m[k].1 == interface_major as int ==> final(self).props()
                    == m && (match decode_payload(m[k].0) {
                    Some(AggregationModel::Individual(v)) => r matches Ok(o) && (o matches Some(x)
                        && x@ == v),
                    Some(AggregationModel::Object(_)) => r matches Err(e) && e matches
                        AstarteError::Reported(_),
                    None => r matches Err(e) && e matches AstarteError::Decode(_),
                }))
            }),
    {
        let ghost k = (interface@, path@);
        match self.find_row(interface, path) {
            None => {
                proof {
                    lemma_map_of_contains(self.rows@, k);
                }
                Ok(None)
            },
            Some(i) => {
                proof {
                    lemma_map_of_index(self.rows@, i as int);
                }
                if self.rows[i].interface_major != interface_major {
                    proof {
                        lemma_map_of_remove(self.rows@, i as int);
                        lemma_unique_keys_remove(self.rows@, i as int);
                    }
                    self.rows.remove(i);
                    Ok(None)
                } else {
                    match decode_stored(self.rows[i].value.as_slice()) {
                        None => Err(
                            AstarteError::Decode(
                                String::from_str("stored property payload did not decode"),
                            ),
                        ),
                        Some(Aggregation::Individual(v)) => Ok(Some(v)),
                        Some(Aggregation::Object(_)) => Err(
                            AstarteError::Reported(
                                String::from_str("aggregate stored where a scalar was expected"),
                            ),
                        ),
                    }
                }
            },
        }
    }

    fn delete_prop(&mut self, interface: &str, path: &str) -> (r: Result<(), AstarteError>)
        ensures
            r is Ok,
    {
        let ghost k = (interface@, path@);
        match self.find_row(interface, path) {
            Some(i) => {
                proof {
                    lemma_map_of_remove(self.rows@, i as int);
                    lemma_unique_keys_remove(self.rows@, i as int);
                }
                self.rows.remove(i);
            },
            None => {
                proof {
                    lemma_map_of_contains(self.rows@, k);
                    assert(map_of(self.rows@).remove(k) =~= map_of(self.rows@));
                }
            },
        }
        Ok(())
    }

    fn clear(&mut self) -> (r: Result<(), AstarteError>)
        ensures
            r is Ok,
    {
        self.rows = Vec::new();
        Ok(())
    }

    fn load_all_props(&self) -> (r: Result<Vec<StoredProp>, AstarteError>)
        ensures
            r is Ok,
    {
        let n = self.rows.len();
        let mut out: Vec<StoredProp> = Vec::new();
        let mut idx: usize = 0;
        while idx < n
            invariant
                n == self.rows@.len(),
                idx <= n,
                out@.len() == idx,
                unique_keys(self.rows@),
                forall|j: int|
                    0 <= j < idx ==> prop_key(#[trigger] out@[j]) == prop_key(self.rows@[j])
                        && prop_record(out@[j]) == prop_record(self.rows@[j]),
            decreases n - idx,
        {
            let row = &self.rows[idx];
            let copy = StoredProp {
                interface: row.interface.clone(),
                path: row.path.clone(),
                value: slice_to_vec(row.value.as_slice()),
                interface_major: row.interface_major,
            };
            out.push(copy);
            idx = idx + 1;
        }
        proof {
            assert forall|a: int, b: int| 0 <= a < b < out@.len() implies prop_key(out@[a])
                != prop_key(out@[b]) by {
                assert(prop_key(out@[a]) == prop_key(self.rows@[a]));
                assert(prop_key(out@[b]) == prop_key(self.rows@[b]));
            }
            lemma_map_of_congruence(out@, self.rows@);
        }
        Ok(out)
    }
}

// The laws of the property cache, stated over the same table model and codec
// specs that the operation contracts use.

/// Round trip: storing a scalar value under some major version and loading it
/// back under the same major version finds the row, with a matching version,
/// and its payload decodes back to exactly the stored scalar.
pub proof fn lemma_store_load_round_trip(
    m: PropTable,
    interface: Seq<char>,
    path: Seq<char>,
    v: ValueModel,
    major: int,
)
    ensures
        ({
            let k = (interface, path);
            let stored = m.insert(k, (encode_value(v), major));
            &&& stored.contains_key(k)
            &&& stored[k].1 == major
            &&& decode_payload(stored[k].0) == Some(AggregationModel::Individual(v))
        }),
{
    crate::codec::lemma_codec_round_trip(v);
}

/// Version invalidation: after storing under major version `major`, a load
/// requesting `other != major` observes a version mismatch (so it answers
/// absent and purges the row), and the purged table no longer holds the key,
/// so a subsequent load under `major` also answers absent.
pub proof fn lemma_version_invalidation(
    m: PropTable,
    interface: Seq<char>,
    path: Seq<char>,
    bytes: Seq<u8>,
    major: int,
    other: int,
)
    requires
        other != major,
    ensures
        ({
            let k = (interface, path);
            let stored = m.insert(k, (bytes, major));
            &&& stored.contains_key(k)
            &&& stored[k].1 != other
            &&& !stored.remove(k).contains_key(k)
        }),
{
}

/// Unset sentinel: the `Unset` value encodes to the empty payload; storing it
/// keeps the row, and a matching load finds the row and decodes the sentinel
/// back, rather than answering absent.
pub proof fn lemma_unset_sentinel(m: PropTable, interface: Seq<char>, path: Seq<char>, major: int)
    ensures
        encode_value(ValueModel::Unset).len() == 0,
        ({
            let k = (interface, path);
            let stored = m.insert(k, (encode_value(ValueModel::Unset), major));
            &&& stored.contains_key(k)
            &&& stored[k].1 == major
            &&& decode_payload(stored[k].0) == Some(
                AggregationModel::Individual(ValueModel::Unset),
            )
        }),
{
    crate::codec::lemma_codec_round_trip(ValueModel::Unset);
}

/// Idempotent delete: removing a key that is not in the table leaves the
/// table unchanged (and `delete_prop` succeeds unconditionally).
pub proof fn lemma_delete_absent(m: PropTable, interface: Seq<char>, path: Seq<char>)
    requires
        !m.contains_key((interface, path)),
    ensures
        m.remove((interface, path)) == m,
{
    assert(m.remove((interface, path)) =~= m);
}

/// Clear wipes all: the empty table holds no key, so after `clear` every
/// previously stored key loads as absent and the listing is empty.
pub proof fn lemma_clear_wipes_all(rows: Seq<StoredProp>, interface: Seq<char>, path: Seq<char>)
    requires
        map_of(rows) == PropTable::empty(),
    ensures
        !map_of(rows).contains_key((interface, path)),
        rows.len() == 0,
{
    lemma_map_of_contains(rows, (interface, path));
    if rows.len() > 0 {
        lemma_map_of_contains(rows, prop_key(rows[0]));
    }
}

/// Bulk listing completeness: storing two properties under two different
/// interfaces into an empty table yields a table holding exactly those two
/// rows, each with exactly the record it was stored with.
pub proof fn lemma_bulk_listing(
    i1: Seq<char>,
    p1: Seq<char>,
    b1: Seq<u8>,
    maj1: int,
    i2: Seq<char>,
    p2: Seq<char>,
    b2: Seq<u8>,
    maj2: int,
)
    requires
        i1 != i2,
    ensures
        ({
            let stored = PropTable::empty().insert((i1, p1), (b1, maj1)).insert(
                (i2, p2),
                (b2, maj2),
            );
            &&& stored.dom() =~= set![(i1, p1), (i2, p2)]
            &&& stored[(i1, p1)] == (b1, maj1)
            &&& stored[(i2, p2)] == (b2, maj2)
        }),
{
}

} // verus!
