//! The record store as the service sees it: a table of records keyed by
//! public key, written by upserts and read with an optional capacity bound.
//!
//! The table is modelled as a `Map`; `NodeStore` is an in-memory store that
//! is proved to behave as the model says.

use crate::connectivity::{views, NodeConnectivity, NodeConnectivityView};
use vstd::prelude::*;

verus! {

/// The store's contents: each known public key with its record.
pub type Table = Map<Seq<char>, NodeConnectivityView>;

/// One upsert: the record stored under the node's public key becomes `node`,
/// whether or not the key was known.
pub open spec fn upsert(table: Table, node: NodeConnectivityView) -> Table {
    table.insert(node.public_key, node)
}

/// The table after upserting every record of `snapshot`, first to last.
pub open spec fn apply_snapshot(table: Table, snapshot: Seq<NodeConnectivityView>) -> Table
    decreases snapshot.len(),
{
    if snapshot.len() == 0 {
        table
    } else {
        upsert(apply_snapshot(table, snapshot.drop_last()), snapshot.last())
    }
}

/// Index of the last record of `snapshot` that carries `key`, if any does.
pub open spec fn last_index_of(snapshot: Seq<NodeConnectivityView>, key: Seq<char>) -> Option<int>
    decreases snapshot.len(),
{
    if snapshot.len() == 0 {
        None
    } else if snapshot.last().public_key == key {
        Some(snapshot.len() - 1)
    } else {
        last_index_of(snapshot.drop_last(), key)
    }
}

/// What a snapshot says by itself: every key it mentions, with the last
/// record it gives for that key.
pub open spec fn snapshot_table(snapshot: Seq<NodeConnectivityView>) -> Table {
    Map::new(
        |key: Seq<char>| last_index_of(snapshot, key) is Some,
        |key: Seq<char>| snapshot[last_index_of(snapshot, key).unwrap()],
    )
}

/// Whether `snapshot` holds a record for `key`.
pub open spec fn mentions(snapshot: Seq<NodeConnectivityView>, key: Seq<char>) -> bool {
    exists|i: int| 0 <= i < snapshot.len() && (#[trigger] snapshot[i]).public_key == key
}

/// `last_index_of` finds a record exactly when the snapshot mentions the
/// key, and the record it finds is the last one with that key.
pub proof fn lemma_last_index_of(snapshot: Seq<NodeConnectivityView>, key: Seq<char>)
    ensures
        last_index_of(snapshot, key) is Some <==> mentions(snapshot, key),
        last_index_of(snapshot, key) matches Some(i) ==> {
            &&& 0 <= i < snapshot.len()
            &&& snapshot[i].public_key == key
            &&& forall|j: int| i < j < snapshot.len() ==> (#[trigger] snapshot[j]).public_key != key
        },
    decreases snapshot.len(),
{
    if snapshot.len() > 0 {
        let front = snapshot.drop_last();
        lemma_last_index_of(front, key);
        if snapshot.last().public_key != key {
            if mentions(snapshot, key) {
                let i = choose|i: int| 0 <= i < snapshot.len() && (#[trigger] snapshot[i]).public_key == key;
                assert(front[i].public_key == key);
            }
            if let Some(i) = last_index_of(front, key) {
                assert forall|j: int| i < j < snapshot.len() implies (#[trigger] snapshot[j]).public_key != key by {
                    if j < front.len() {
                        assert(front[j].public_key != key);
                    }
                }
            }
        }
    }
}

/// Applying a snapshot overlays the table with what the snapshot says:
/// keys the snapshot mentions take its last record for them, whole; every
/// other key keeps what the table held.
pub proof fn lemma_apply_snapshot_overlays(table: Table, snapshot: Seq<NodeConnectivityView>)
    ensures
        apply_snapshot(table, snapshot) == table.union_prefer_right(snapshot_table(snapshot)),
    decreases snapshot.len(),
{
    if snapshot.len() > 0 {
        let front = snapshot.drop_last();
        let last = snapshot.last();
        lemma_apply_snapshot_overlays(table, front);
        assert forall|key: Seq<char>| key != last.public_key implies {
            &&& last_index_of(snapshot, key) == last_index_of(front, key)
            &&& last_index_of(front, key) matches Some(i) ==> snapshot[i] == front[i]
        } by {
            lemma_last_index_of(front, key);
        }
    }
}

/// Applying the same snapshot twice in a row leaves the table as applying
/// it once does.
pub proof fn lemma_apply_snapshot_idempotent(table: Table, snapshot: Seq<NodeConnectivityView>)
    ensures
        apply_snapshot(apply_snapshot(table, snapshot), snapshot) == apply_snapshot(table, snapshot),
{
    lemma_apply_snapshot_overlays(table, snapshot);
    lemma_apply_snapshot_overlays(apply_snapshot(table, snapshot), snapshot);
}

/// After a snapshot is applied, a key that it mentions holds exactly the
/// last record the snapshot gives for it: nothing of the record that was
/// stored before survives, whatever the table held.
pub proof fn lemma_apply_snapshot_replaces(table: Table, snapshot: Seq<NodeConnectivityView>, i: int)
    requires
        0 <= i < snapshot.len(),
        forall|j: int| i < j < snapshot.len() ==> (#[trigger] snapshot[j]).public_key != snapshot[i].public_key,
    ensures
        apply_snapshot(table, snapshot).dom().contains(snapshot[i].public_key),
        apply_snapshot(table, snapshot)[snapshot[i].public_key] == snapshot[i],
{
    let key = snapshot[i].public_key;
    lemma_apply_snapshot_overlays(table, snapshot);
    lemma_last_index_of(snapshot, key);
}

/// A key that the snapshot does not mention is left as it was: still
/// present if it was present, with the same record, and still absent if it
/// was absent.
pub proof fn lemma_apply_snapshot_retains(table: Table, snapshot: Seq<NodeConnectivityView>, key: Seq<char>)
    requires
        !mentions(snapshot, key),
    ensures
        apply_snapshot(table, snapshot).dom().contains(key) == table.dom().contains(key),
        table.dom().contains(key) ==> apply_snapshot(table, snapshot)[key] == table[key],
{
    lemma_apply_snapshot_overlays(table, snapshot);
    lemma_last_index_of(snapshot, key);
}

/// Whether a record passes the threshold of a read: with no threshold
/// every record does, with one those whose capacity reaches it. The
/// threshold is any integer; none reaches one above `u64::MAX`.
pub open spec fn admits(threshold: Option<int>, node: NodeConnectivityView) -> bool {
    match threshold {
        Some(threshold) => node.capacity as int >= threshold,
        None => true,
    }
}

/// The part of the table that a read with the given threshold answers
/// with.
pub open spec fn select(table: Table, threshold: Option<int>) -> Table {
    table.restrict(Set::new(|key: Seq<char>| admits(threshold, table[key])))
}

/// The least bound that no capacity reaches: one more than `u64::MAX`.
pub const UNREACHABLE_CAPACITY: u128 = 0x1_0000_0000_0000_0000;

/// The threshold that a least capacity, as the store takes it, stands for.
/// The store takes bounds wider than a capacity, so that it can be asked
/// for what no record reaches.
pub open spec fn threshold_of(min_capacity: Option<u128>) -> Option<int> {
    match min_capacity {
        Some(min_capacity) => Some(min_capacity as int),
        None => None,
    }
}

/// No record reaches a threshold above `u64::MAX`: a read with one is
/// answered with nothing, whatever the table holds.
pub proof fn lemma_nothing_reaches(table: Table, threshold: int)
    requires
        threshold > u64::MAX,
    ensures
        select(table, Some(threshold)) == Map::<Seq<char>, NodeConnectivityView>::empty(),
{
    assert(select(table, Some(threshold)) =~= Map::<Seq<char>, NodeConnectivityView>::empty());
}

/// No two records of `rows` share a public key.
pub open spec fn distinct_keys(rows: Seq<NodeConnectivityView>) -> bool {
    forall|i: int, j: int|
        0 <= i < j < rows.len() ==> (#[trigger] rows[i]).public_key != (#[trigger] rows[j]).public_key
}

/// `rows` lists the records of `table`, each exactly once, in some order.
pub open spec fn enumerates(rows: Seq<NodeConnectivityView>, table: Table) -> bool {
    &&& distinct_keys(rows)
    &&& forall|i: int|
        0 <= i < rows.len() ==> table.dom().contains((#[trigger] rows[i]).public_key)
            && table[rows[i].public_key] == rows[i]
    &&& forall|key: Seq<char>| #[trigger] table.dom().contains(key) ==> mentions(rows, key)
}

/// A list of records with distinct keys enumerates the table it spells
/// out, and that table has as many keys as the list has records.
pub proof fn lemma_distinct_rows_enumerate(rows: Seq<NodeConnectivityView>)
    requires
        distinct_keys(rows),
    ensures
        enumerates(rows, snapshot_table(rows)),
        snapshot_table(rows).dom().finite(),
        snapshot_table(rows).dom().len() == rows.len(),
    decreases rows.len(),
{
    let table = snapshot_table(rows);
    assert forall|i: int| 0 <= i < rows.len() implies table.dom().contains((#[trigger] rows[i]).public_key)
        && table[rows[i].public_key] == rows[i] by {
        lemma_last_index_of(rows, rows[i].public_key);
    }
    assert forall|key: Seq<char>| #[trigger] table.dom().contains(key) implies mentions(rows, key) by {
        lemma_last_index_of(rows, key);
    }
    if rows.len() == 0 {
        assert(table.dom() =~= Set::empty());
    } else {
        let front = rows.drop_last();
        let last = rows.last();
        lemma_distinct_rows_enumerate(front);
        lemma_last_index_of(front, last.public_key);
        assert(table.dom() =~= snapshot_table(front).dom().insert(last.public_key));
    }
}

/// Replacing a record by one with the same key, in a list with distinct
/// keys, is an upsert of the table that the list spells out.
proof fn lemma_replace_row_upserts(rows: Seq<NodeConnectivityView>, i: int, node: NodeConnectivityView)
    requires
        distinct_keys(rows),
        0 <= i < rows.len(),
        rows[i].public_key == node.public_key,
    ensures
        distinct_keys(rows.update(i, node)),
        snapshot_table(rows.update(i, node)) == upsert(snapshot_table(rows), node),
{
    let after = rows.update(i, node);
    let replaced = snapshot_table(after);
    let upserted = upsert(snapshot_table(rows), node);
    assert forall|key: Seq<char>|
        #![trigger replaced.dom().contains(key)]
        #![trigger upserted.dom().contains(key)]
        replaced.dom().contains(key) == upserted.dom().contains(key) && (replaced.dom().contains(key)
            ==> replaced[key] == upserted[key]) by {
        lemma_last_index_of(rows, key);
        lemma_last_index_of(after, key);
        if let Some(a) = last_index_of(rows, key) {
            assert(after[a].public_key == key);
        }
    }
}

/// Appending a record with a new key keeps the keys distinct and is an
/// upsert of the table that the list spells out.
proof fn lemma_push_row_upserts(rows: Seq<NodeConnectivityView>, node: NodeConnectivityView)
    requires
        distinct_keys(rows),
        !mentions(rows, node.public_key),
    ensures
        distinct_keys(rows.push(node)),
        snapshot_table(rows.push(node)) == upsert(snapshot_table(rows), node),
{
    let after = rows.push(node);
    assert(after.drop_last() =~= rows);
    assert forall|key: Seq<char>| key != node.public_key implies {
        &&& last_index_of(after, key) == last_index_of(rows, key)
        &&& last_index_of(rows, key) matches Some(i) ==> after[i] == rows[i]
    } by {
        lemma_last_index_of(rows, key);
    }
}

/// Upserts `node` into a list of rows with distinct keys.
fn upsert_row(rows: &mut Vec<NodeConnectivity>, node: NodeConnectivity)
    requires
        distinct_keys(views(old(rows)@)),
    ensures
        distinct_keys(views(final(rows)@)),
        snapshot_table(views(final(rows)@)) == upsert(snapshot_table(views(old(rows)@)), node@),
{
    let ghost before = views(rows@);
    let mut i: usize = 0;
    while i < rows.len()
        invariant
            i <= rows.len(),
            views(rows@) == before,
            before == views(old(rows)@),
            distinct_keys(before),
            forall|j: int| 0 <= j < i ==> (#[trigger] before[j]).public_key != node@.public_key,
        decreases rows.len() - i,
    {
        if rows[i].public_key == node.public_key {
            proof {
                lemma_replace_row_upserts(before, i as int, node@);
            }
            rows[i] = node;
            assert(views(rows@) =~= before.update(i as int, node@));
            return ;
        }
        i += 1;
    }
    proof {
        lemma_push_row_upserts(before, node@);
    }
    rows.push(node);
    assert(views(rows@) =~= before.push(node@));
}

/// An in-memory record store that behaves as the table model says. It
/// stands for the database wherever the service runs without one.
pub struct NodeStore {
    rows: Vec<NodeConnectivity>,
}

impl View for NodeStore {
    type V = Table;

    closed spec fn view(&self) -> Table {
        snapshot_table(views(self.rows@))
    }
}

impl NodeStore {
    #[verifier::type_invariant]
    spec fn well_formed(&self) -> bool {
        distinct_keys(views(self.rows@))
    }

    /// An empty store.
    pub fn new() -> (store: Self)
        ensures
            store@ == Map::<Seq<char>, NodeConnectivityView>::empty(),
    {
        NodeStore { rows: Vec::new() }
    }

    /// Inserts the record, or replaces the whole record stored under its
    /// public key, in one step.
    pub fn upsert(&mut self, node: NodeConnectivity)
        ensures
            final(self)@ == upsert(old(self)@, node@),
    {
        proof {
            use_type_invariant(&*self);
        }
        let mut rows: Vec<NodeConnectivity> = Vec::new();
        std::mem::swap(&mut rows, &mut self.rows);
        upsert_row(&mut rows, node);
        self.rows = rows;
    }

    /// The number of records in the store.
    pub fn count(&self) -> (total: usize)
        ensures
            self@.dom().finite(),
            total == self@.dom().len(),
    {
        proof {
            use_type_invariant(self);
            lemma_distinct_rows_enumerate(views(self.rows@));
        }
        self.rows.len()
    }

    /// Reads the records that pass the capacity bound; all of them when
    /// there is none. Each is returned once; their order is not specified.
    pub fn select(&self, min_capacity: Option<u128>) -> (found: Vec<NodeConnectivity>)
        ensures
            enumerates(views(found@), select(self@, threshold_of(min_capacity))),
    {
        proof {
            use_type_invariant(self);
            lemma_distinct_rows_enumerate(views(self.rows@));
        }
        let ghost rows = views(self.rows@);
        let ghost wanted = select(self@, threshold_of(min_capacity));
        let mut found: Vec<NodeConnectivity> = Vec::new();
        let ghost mut origin: Seq<int> = Seq::empty();
        for i in 0..self.rows.len()
            invariant
                rows == views(self.rows@),
                wanted == select(self@, threshold_of(min_capacity)),
                enumerates(rows, self@),
                origin.len() == found.len(),
                forall|k: int| 0 <= k < origin.len() ==> 0 <= #[trigger] origin[k] < i,
                forall|k: int, l: int| 0 <= k < l < origin.len() ==> origin[k] < origin[l],
                forall|k: int| 0 <= k < found.len() ==> (#[trigger] found[k])@ == rows[origin[k]],
                forall|k: int| 0 <= k < found.len() ==> admits(threshold_of(min_capacity), (#[trigger] found[k])@),
                forall|j: int|
                    0 <= j < i && admits(threshold_of(min_capacity), #[trigger] rows[j]) ==> exists|k: int|
                        0 <= k < origin.len() && #[trigger] origin[k] == j,
        {
            let node = &self.rows[i];
            let passes = match min_capacity {
                Some(min) => node.capacity as u128 >= min,
                None => true,
            };
            if passes {
                found.push(node.clone());
                proof {
                    let earlier = origin;
                    origin = earlier.push(i as int);
                    assert forall|j: int| 0 <= j < i + 1 && admits(threshold_of(min_capacity), #[trigger] rows[j]) implies exists|
                        k: int,
                    | 0 <= k < origin.len() && #[trigger] origin[k] == j by {
                        if j < i {
                            let k = choose|k: int| 0 <= k < earlier.len() && #[trigger] earlier[k] == j;
                            assert(origin[k] == j);
                        } else {
                            assert(origin[earlier.len() as int] == j);
                        }
                    }
                }
            }
        }
        proof {
            let listed = views(found@);
            assert forall|key: Seq<char>| #[trigger] wanted.dom().contains(key) implies mentions(listed, key) by {
                let j = choose|j: int| 0 <= j < rows.len() && (#[trigger] rows[j]).public_key == key;
                let k = choose|k: int| 0 <= k < origin.len() && #[trigger] origin[k] == j;
                assert(listed[k].public_key == key);
            }
        }
        found
    }
}

} // verus!
