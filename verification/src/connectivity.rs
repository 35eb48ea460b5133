//! The node connectivity record, its wire form, and the reconciliation of a
//! fetched ranking snapshot with the record store.

use crate::store::{apply_snapshot, upsert, NodeStore, Table};
use vstd::prelude::*;

verus! {

/// Mathematical value of a connectivity record: what contracts speak of.
pub struct NodeConnectivityView {
    pub public_key: Seq<char>,
    pub alias: Seq<char>,
    pub capacity: u64,
    pub first_seen: i64,
    pub updated_at: i64,
}

/// A connectivity record as the ranking provider sends it. The provider
/// spells the field names in camel case; decoding maps them onto these.
#[derive(Debug)]
pub struct MempoolNodeConnectivity {
    pub public_key: String,
    pub alias: String,
    pub capacity: u64,
    pub first_seen: i64,
    pub updated_at: i64,
}

/// Represents the connectivity information of a Lightning Network node (a
/// subset of the full data). `public_key` identifies the node; `capacity` is
/// in satoshi; both timestamps are Unix seconds.
#[derive(Debug)]
pub struct NodeConnectivity {
    pub public_key: String,
    pub alias: String,
    pub capacity: u64,
    pub first_seen: i64,
    pub updated_at: i64,
}

impl View for MempoolNodeConnectivity {
    type V = NodeConnectivityView;

    open spec fn view(&self) -> NodeConnectivityView {
        NodeConnectivityView {
            public_key: self.public_key@,
            alias: self.alias@,
            capacity: self.capacity,
            first_seen: self.first_seen,
            updated_at: self.updated_at,
        }
    }
}

impl View for NodeConnectivity {
    type V = NodeConnectivityView;

    open spec fn view(&self) -> NodeConnectivityView {
        NodeConnectivityView {
            public_key: self.public_key@,
            alias: self.alias@,
            capacity: self.capacity,
            first_seen: self.first_seen,
            updated_at: self.updated_at,
        }
    }
}

impl Clone for NodeConnectivity {
    fn clone(&self) -> (copy: Self)
        ensures
            copy == *self,
    {
        NodeConnectivity {
            public_key: self.public_key.clone(),
            alias: self.alias.clone(),
            capacity: self.capacity,
            first_seen: self.first_seen,
            updated_at: self.updated_at,
        }
    }
}

impl From<MempoolNodeConnectivity> for NodeConnectivity {
    fn from(mempool_node: MempoolNodeConnectivity) -> (node: Self) {
        Self {
            public_key: mempool_node.public_key,
            alias: mempool_node.alias,
            capacity: mempool_node.capacity,
            first_seen: mempool_node.first_seen,
            updated_at: mempool_node.updated_at,
        }
    }
}

impl vstd::std_specs::convert::FromSpecImpl<MempoolNodeConnectivity> for NodeConnectivity {
    open spec fn obeys_from_spec() -> bool {
        true
    }

    open spec fn from_spec(mempool_node: MempoolNodeConnectivity) -> Self {
        NodeConnectivity {
            public_key: mempool_node.public_key,
            alias: mempool_node.alias,
            capacity: mempool_node.capacity,
            first_seen: mempool_node.first_seen,
            updated_at: mempool_node.updated_at,
        }
    }
}

/// The mathematical values of a sequence of records, in order.
pub open spec fn views(nodes: Seq<NodeConnectivity>) -> Seq<NodeConnectivityView> {
    nodes.map_values(|node: NodeConnectivity| node@)
}

/// Turns a decoded provider snapshot into records, one for one and in order.
pub fn snapshot_from_wire(wire: Vec<MempoolNodeConnectivity>) -> (nodes: Vec<NodeConnectivity>)
    ensures
        nodes.len() == wire.len(),
        views(nodes@) == wire_views(wire@),
{
    let ghost all = wire@;
    let mut nodes: Vec<NodeConnectivity> = Vec::new();
    for mempool_node in it: wire
        invariant
            it.seq() == all,
            nodes.len() == it.index(),
            forall|i: int| 0 <= i < nodes.len() ==> #[trigger] nodes[i]@ == all[i]@,
    {
        nodes.push(NodeConnectivity::from(mempool_node));
    }
    nodes
}

/// Why fetching a snapshot from the provider failed.
#[derive(Clone, Copy, Debug, PartialEq, Eq)]
pub enum FetchError {
    /// The request did not get through, or no complete answer came back.
    Transport,
    /// The answer was not a list of connectivity records.
    Decode,
}

/// Why reconciling a snapshot with the store failed.
#[derive(Clone, Copy, Debug, PartialEq, Eq)]
pub enum StoreError {
    /// The snapshot held no record; the store was not touched.
    EmptySnapshot,
    /// The store refused or lost an upsert; earlier upserts stay applied.
    WriteFailed,
}

/// What the store reported for one upsert.
#[derive(Clone, Copy, Debug, PartialEq, Eq)]
pub enum WriteOutcome {
    Written,
    Failed,
}

/// What a reconciliation asks of its driver next.
#[derive(Debug)]
pub enum ReconcileAction {
    /// Upsert this record, then report how it went.
    Upsert(NodeConnectivity),
    /// Nothing is left to do; this is the result of the reconciliation.
    Finish(Result<(), StoreError>),
}

/// `latest` is the greatest `updated_at` among the records of `snapshot`.
pub open spec fn is_latest_update(snapshot: Seq<NodeConnectivityView>, latest: i64) -> bool {
    &&& exists|i: int| 0 <= i < snapshot.len() && (#[trigger] snapshot[i]).updated_at == latest
    &&& forall|i: int| 0 <= i < snapshot.len() ==> (#[trigger] snapshot[i]).updated_at <= latest
}

/// The greatest `updated_at` among the records, or `None` when there are
/// no records.
pub fn max_updated_at(nodes: &Vec<NodeConnectivity>) -> (latest: Option<i64>)
    ensures
        match latest {
            Some(latest) => is_latest_update(views(nodes@), latest),
            None => nodes.len() == 0,
        },
{
    if nodes.len() == 0 {
        return None;
    }
    let ghost snapshot = views(nodes@);
    let mut latest: i64 = nodes[0].updated_at;
    assert(snapshot[0].updated_at == latest);
    for i in 1..nodes.len()
        invariant
            snapshot == views(nodes@),
            exists|j: int| 0 <= j < i && (#[trigger] snapshot[j]).updated_at == latest,
            forall|j: int| 0 <= j < i ==> (#[trigger] snapshot[j]).updated_at <= latest,
    {
        if nodes[i].updated_at > latest {
            latest = nodes[i].updated_at;
        }
        assert(snapshot[i as int].updated_at <= latest);
    }
    Some(latest)
}

/// The reconciliation of one snapshot with the store, as a state machine.
///
/// The machine decides; its driver talks to the store. The driver asks for
/// the `next_action`, performs it, and reports each upsert with `record`.
/// Records are upserted one at a time, in snapshot order, and the first
/// failed upsert ends the reconciliation.
pub struct Reconciliation {
    snapshot: Vec<NodeConnectivity>,
    latest: i64,
    written: usize,
    failed: bool,
}

impl Reconciliation {
    #[verifier::type_invariant]
    spec fn well_formed(&self) -> bool {
        &&& 0 < self.snapshot.len()
        &&& self.written <= self.snapshot.len()
        &&& is_latest_update(views(self.snapshot@), self.latest)
    }

    /// The snapshot being reconciled.
    pub closed spec fn snapshot(&self) -> Seq<NodeConnectivityView> {
        views(self.snapshot@)
    }

    /// How many upserts the store has acknowledged so far.
    pub closed spec fn written(&self) -> nat {
        self.written as nat
    }

    /// Whether the store has reported a failed upsert.
    pub closed spec fn failed(&self) -> bool {
        self.failed
    }

    /// Whether an upsert is still to be made.
    pub open spec fn pending(&self) -> bool {
        !self.failed() && self.written() < self.snapshot().len()
    }

    /// The table that a store holding `table` at the start holds now,
    /// given that it applied each acknowledged upsert: the acknowledged
    /// part of the snapshot is in, the rest is not.
    pub open spec fn applied(&self, table: Table) -> Table {
        apply_snapshot(table, self.snapshot().take(self.written() as int))
    }

    /// Each acknowledged upsert adds one record to what has been applied:
    /// when `after` is `before` with one more acknowledged upsert, the
    /// store holds what it held, with the record that was pending upserted.
    pub proof fn lemma_applied_grows(before: Self, after: Self, table: Table)
        requires
            before.pending(),
            after.snapshot() == before.snapshot(),
            after.written() == before.written() + 1,
        ensures
            after.applied(table) == upsert(before.applied(table), before.snapshot()[before.written() as int]),
    {
        let done = before.written() as int;
        assert(before.snapshot().take(done + 1).drop_last() =~= before.snapshot().take(done));
    }

    /// Once every upsert is acknowledged, the whole snapshot is applied.
    pub proof fn lemma_applied_in_full(self, table: Table)
        requires
            self.written() == self.snapshot().len(),
        ensures
            self.applied(table) == apply_snapshot(table, self.snapshot()),
    {
        assert(self.snapshot().take(self.written() as int) =~= self.snapshot());
    }

    /// Starts the reconciliation of `nodes`. An empty snapshot is refused
    /// before anything is asked of the store.
    pub fn begin(nodes: Vec<NodeConnectivity>) -> (started: Result<Reconciliation, StoreError>)
        ensures
            nodes.len() == 0 ==> started == Err::<Reconciliation, StoreError>(StoreError::EmptySnapshot),
            nodes.len() > 0 ==> started is Ok && started.unwrap().snapshot() == views(nodes@)
                && started.unwrap().written() == 0 && !started.unwrap().failed(),
    {
        match max_updated_at(&nodes) {
            Some(latest) => Ok(Reconciliation { snapshot: nodes, latest, written: 0, failed: false }),
            None => Err(StoreError::EmptySnapshot),
        }
    }

    /// The greatest `updated_at` of the snapshot, for the driver's log.
    pub fn max_updated_at(&self) -> (latest: i64)
        ensures
            is_latest_update(self.snapshot(), latest),
    {
        proof {
            use_type_invariant(self);
        }
        self.latest
    }

    /// What the driver is to do now: upsert the first record that is not
    /// yet written, or finish, with `WriteFailed` after a failed upsert
    /// and with success once every record is written.
    pub fn next_action(&self) -> (action: ReconcileAction)
        ensures
            self.written() <= self.snapshot().len(),
            match action {
                ReconcileAction::Upsert(node) => self.pending() && node@ == self.snapshot()[
                    self.written() as int],
                ReconcileAction::Finish(Err(error)) => self.failed() && error == StoreError::WriteFailed,
                ReconcileAction::Finish(Ok(())) => !self.failed() && self.written()
                    == self.snapshot().len(),
            },
    {
        proof {
            use_type_invariant(self);
        }
        if self.failed {
            ReconcileAction::Finish(Err(StoreError::WriteFailed))
        } else if self.written < self.snapshot.len() {
            ReconcileAction::Upsert(self.snapshot[self.written].clone())
        } else {
            ReconcileAction::Finish(Ok(()))
        }
    }

    /// Takes in what the store reported for the upsert that `next_action`
    /// asked for. A report that comes when no upsert is pending changes
    /// nothing.
    pub fn record(&mut self, outcome: WriteOutcome)
        ensures
            final(self).snapshot() == old(self).snapshot(),
            final(self).written() == if old(self).pending() && outcome == WriteOutcome::Written {
                old(self).written() + 1
            } else {
                old(self).written()
            },
            final(self).failed() == (old(self).failed() || (old(self).pending() && outcome
                == WriteOutcome::Failed)),
    {
        proof {
            use_type_invariant(&*self);
        }
        if !self.failed && self.written < self.snapshot.len() {
            match outcome {
                WriteOutcome::Written => {
                    self.written = self.written + 1;
                },
                WriteOutcome::Failed => {
                    self.failed = true;
                },
            }
        }
    }
}

/// Reconciles a snapshot with the store: every record of the snapshot is
/// upserted under its public key, first to last, and what the store holds
/// for a key is replaced whole, `first_seen` included. Records that the
/// snapshot does not mention stay as they are. An empty snapshot is an
/// error, and the store is then left untouched.
pub fn reconcile(store: &mut NodeStore, nodes: Vec<NodeConnectivity>) -> (result: Result<(), StoreError>)
    ensures
        nodes.len() == 0 ==> result == Err::<(), StoreError>(StoreError::EmptySnapshot) && final(store)@
            == old(store)@,
        nodes.len() > 0 ==> result is Ok && final(store)@ == apply_snapshot(old(store)@, views(nodes@)),
{
    let mut run = match Reconciliation::begin(nodes) {
        Ok(run) => run,
        Err(error) => {
            return Err(error);
        },
    };
    loop
        invariant
            nodes.len() > 0,
            run.snapshot() == views(nodes@),
            run.written() <= run.snapshot().len(),
            !run.failed(),
            store@ == run.applied(old(store)@),
        decreases run.snapshot().len() - run.written(),
    {
        match run.next_action() {
            ReconcileAction::Upsert(node) => {
                let ghost before = run;
                store.upsert(node);
                run.record(WriteOutcome::Written);
                proof {
                    Reconciliation::lemma_applied_grows(before, run, old(store)@);
                }
            },
            ReconcileAction::Finish(result) => {
                proof {
                    run.lemma_applied_in_full(old(store)@);
                }
                return result;
            },
        }
    }
}

/// Why an update of the store failed.
#[derive(Clone, Copy, Debug, PartialEq, Eq)]
pub enum UpdateError {
    /// No snapshot could be fetched.
    Fetch(FetchError),
    /// The snapshot could not be reconciled with the store.
    Store(StoreError),
}

/// The records that a decoded provider snapshot stands for.
pub open spec fn wire_views(wire: Seq<MempoolNodeConnectivity>) -> Seq<NodeConnectivityView> {
    wire.map_values(|mempool_node: MempoolNodeConnectivity| mempool_node@)
}

/// Updates the store with the latest connectivity data of Lightning
/// Network nodes, given what fetching the ranking from the provider came
/// to. A failed fetch and an empty ranking are errors that leave the store
/// untouched; any other ranking is reconciled with the store.
pub fn update_nodes_connectivity_task(
    store: &mut NodeStore,
    fetched: Result<Vec<MempoolNodeConnectivity>, FetchError>,
) -> (result: Result<(), UpdateError>)
    ensures
        match fetched {
            Err(error) => result == Err::<(), UpdateError>(UpdateError::Fetch(error)) && final(store)@
                == old(store)@,
            Ok(wire) => if wire.len() == 0 {
                result == Err::<(), UpdateError>(UpdateError::Store(StoreError::EmptySnapshot))
                    && final(store)@ == old(store)@
            } else {
                result is Ok && final(store)@ == apply_snapshot(old(store)@, wire_views(wire@))
            },
        },
{
    let nodes = match fetched {
        Ok(wire) => snapshot_from_wire(wire),
        Err(error) => {
            return Err(UpdateError::Fetch(error));
        },
    };
    match reconcile(store, nodes) {
        Ok(()) => Ok(()),
        Err(error) => Err(UpdateError::Store(error)),
    }
}

} // verus!
