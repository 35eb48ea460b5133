use node_connectivity::connectivity::{
    max_updated_at, reconcile, snapshot_from_wire, update_nodes_connectivity_task, FetchError,
    MempoolNodeConnectivity, NodeConnectivity, ReconcileAction, Reconciliation, StoreError, UpdateError,
    WriteOutcome,
};
use node_connectivity::store::NodeStore;

fn node(public_key: &str, alias: &str, capacity: u64, first_seen: i64, updated_at: i64) -> NodeConnectivity {
    NodeConnectivity {
        public_key: public_key.to_string(),
        alias: alias.to_string(),
        capacity,
        first_seen,
        updated_at,
    }
}

fn fields(node: &NodeConnectivity) -> (String, String, u64, i64, i64) {
    (node.public_key.clone(), node.alias.clone(), node.capacity, node.first_seen, node.updated_at)
}

fn contents(store: &NodeStore) -> Vec<(String, String, u64, i64, i64)> {
    let mut rows: Vec<(String, String, u64, i64, i64)> = store.select(None).iter().map(fields).collect();
    rows.sort();
    rows
}

fn snapshot() -> Vec<NodeConnectivity> {
    vec![
        node("02aa", "alice", 500_000_000, 1_500_000_000, 1_700_000_100),
        node("03bb", "bob", 250_000_000, 1_600_000_000, 1_700_000_300),
        node("02cc", "carol", 1, 0, 1_700_000_200),
    ]
}

#[test]
fn wire_records_become_records_in_order() {
    let wire = vec![
        MempoolNodeConnectivity {
            public_key: "02aa".to_string(),
            alias: "alice".to_string(),
            capacity: 7,
            first_seen: -3,
            updated_at: 11,
        },
        MempoolNodeConnectivity {
            public_key: "03bb".to_string(),
            alias: "bob".to_string(),
            capacity: u64::MAX,
            first_seen: i64::MAX,
            updated_at: i64::MIN,
        },
    ];
    let nodes = snapshot_from_wire(wire);
    assert_eq!(nodes.len(), 2);
    assert_eq!(fields(&nodes[0]), ("02aa".to_string(), "alice".to_string(), 7, -3, 11));
    assert_eq!(fields(&nodes[1]), ("03bb".to_string(), "bob".to_string(), u64::MAX, i64::MAX, i64::MIN));
    assert!(snapshot_from_wire(Vec::new()).is_empty());
}

#[test]
fn wire_record_converts_field_by_field() {
    let wire = MempoolNodeConnectivity {
        public_key: "02aa".to_string(),
        alias: "alice".to_string(),
        capacity: 42,
        first_seen: 1,
        updated_at: 2,
    };
    let converted = NodeConnectivity::from(wire);
    assert_eq!(fields(&converted), ("02aa".to_string(), "alice".to_string(), 42, 1, 2));
    let copy = converted.clone();
    assert_eq!(fields(&copy), fields(&converted));
}

#[test]
fn max_updated_at_is_the_greatest() {
    assert_eq!(max_updated_at(&snapshot()), Some(1_700_000_300));
    assert_eq!(max_updated_at(&vec![node("a", "a", 0, 0, -5)]), Some(-5));
    assert_eq!(max_updated_at(&vec![node("a", "a", 0, 0, -5), node("b", "b", 0, 0, i64::MIN)]), Some(-5));
    assert_eq!(max_updated_at(&Vec::new()), None);
}

#[test]
fn new_store_is_empty() {
    let store = NodeStore::new();
    assert_eq!(store.count(), 0);
    assert!(store.select(None).is_empty());
    assert!(store.select(Some(0)).is_empty());
}

#[test]
fn snapshot_is_inserted_into_an_empty_store() {
    let mut store = NodeStore::new();
    assert_eq!(reconcile(&mut store, snapshot()), Ok(()));
    assert_eq!(store.count(), 3);
    let mut expected: Vec<(String, String, u64, i64, i64)> = snapshot().iter().map(fields).collect();
    expected.sort();
    assert_eq!(contents(&store), expected);
}

#[test]
fn applying_a_snapshot_twice_is_applying_it_once() {
    let mut once = NodeStore::new();
    once.upsert(node("04dd", "dave", 9, 9, 9));
    let mut twice = NodeStore::new();
    twice.upsert(node("04dd", "dave", 9, 9, 9));
    assert_eq!(reconcile(&mut once, snapshot()), Ok(()));
    assert_eq!(reconcile(&mut twice, snapshot()), Ok(()));
    assert_eq!(reconcile(&mut twice, snapshot()), Ok(()));
    assert_eq!(once.count(), 4);
    assert_eq!(twice.count(), 4);
    assert_eq!(contents(&once), contents(&twice));
}

#[test]
fn upsert_replaces_the_whole_record() {
    let mut store = NodeStore::new();
    assert_eq!(reconcile(&mut store, snapshot()), Ok(()));
    let newer = vec![node("03bb", "bobby", 777, 1_600_000_001, 1_700_000_999)];
    assert_eq!(reconcile(&mut store, newer), Ok(()));
    assert_eq!(store.count(), 3);
    let rows = contents(&store);
    let stored: Vec<&(String, String, u64, i64, i64)> = rows.iter().filter(|row| row.0 == "03bb").collect();
    assert_eq!(stored.len(), 1);
    assert_eq!(*stored[0], ("03bb".to_string(), "bobby".to_string(), 777, 1_600_000_001, 1_700_000_999));
}

#[test]
fn last_record_of_a_key_wins_within_a_snapshot() {
    let mut store = NodeStore::new();
    let nodes = vec![
        node("02aa", "first", 1, 1, 1),
        node("03bb", "bob", 2, 2, 2),
        node("02aa", "second", 3, 3, 3),
    ];
    assert_eq!(reconcile(&mut store, nodes), Ok(()));
    assert_eq!(
        contents(&store),
        vec![
            ("02aa".to_string(), "second".to_string(), 3, 3, 3),
            ("03bb".to_string(), "bob".to_string(), 2, 2, 2),
        ]
    );
}

#[test]
fn omitted_records_are_retained() {
    let mut store = NodeStore::new();
    assert_eq!(reconcile(&mut store, snapshot()), Ok(()));
    let next = vec![node("05ee", "erin", 5, 5, 5), node("02aa", "alice2", 6, 6, 6)];
    assert_eq!(reconcile(&mut store, next), Ok(()));
    assert_eq!(store.count(), 4);
    let rows = contents(&store);
    assert!(rows.contains(&("03bb".to_string(), "bob".to_string(), 250_000_000, 1_600_000_000, 1_700_000_300)));
    assert!(rows.contains(&("02cc".to_string(), "carol".to_string(), 1, 0, 1_700_000_200)));
    assert!(rows.contains(&("02aa".to_string(), "alice2".to_string(), 6, 6, 6)));
    assert!(rows.contains(&("05ee".to_string(), "erin".to_string(), 5, 5, 5)));
}

#[test]
fn empty_snapshot_is_refused_and_writes_nothing() {
    let mut store = NodeStore::new();
    assert_eq!(reconcile(&mut store, snapshot()), Ok(()));
    let before = contents(&store);
    assert_eq!(reconcile(&mut store, Vec::new()), Err(StoreError::EmptySnapshot));
    assert_eq!(contents(&store), before);
    assert_eq!(store.count(), 3);
    assert!(matches!(Reconciliation::begin(Vec::new()), Err(StoreError::EmptySnapshot)));
}

#[test]
fn keys_are_compared_whole() {
    let mut store = NodeStore::new();
    store.upsert(node("02aa", "short", 1, 1, 1));
    store.upsert(node("02aab", "long", 2, 2, 2));
    store.upsert(node("", "empty", 3, 3, 3));
    store.upsert(node("02AA", "upper", 4, 4, 4));
    assert_eq!(store.count(), 4);
    store.upsert(node("", "empty again", 5, 5, 5));
    assert_eq!(store.count(), 4);
}

#[test]
fn reconciliation_upserts_in_snapshot_order_then_finishes() {
    let mut run = match Reconciliation::begin(snapshot()) {
        Ok(run) => run,
        Err(error) => panic!("refused: {:?}", error),
    };
    assert_eq!(run.max_updated_at(), 1_700_000_300);
    let mut asked: Vec<String> = Vec::new();
    loop {
        match run.next_action() {
            ReconcileAction::Upsert(node) => {
                asked.push(node.public_key);
                run.record(WriteOutcome::Written);
            }
            ReconcileAction::Finish(result) => {
                assert_eq!(result, Ok(()));
                break;
            }
        }
    }
    assert_eq!(asked, vec!["02aa".to_string(), "03bb".to_string(), "02cc".to_string()]);
    assert!(matches!(run.next_action(), ReconcileAction::Finish(Ok(()))));
    run.record(WriteOutcome::Failed);
    assert!(matches!(run.next_action(), ReconcileAction::Finish(Ok(()))));
}

#[test]
fn reconciliation_repeats_the_pending_upsert_until_reported() {
    let mut run = match Reconciliation::begin(snapshot()) {
        Ok(run) => run,
        Err(error) => panic!("refused: {:?}", error),
    };
    for _ in 0..3 {
        match run.next_action() {
            ReconcileAction::Upsert(node) => assert_eq!(fields(&node), fields(&snapshot()[0])),
            ReconcileAction::Finish(result) => panic!("finished early: {:?}", result),
        }
    }
}

#[test]
fn failed_write_ends_the_reconciliation() {
    let mut store = NodeStore::new();
    let mut run = match Reconciliation::begin(snapshot()) {
        Ok(run) => run,
        Err(error) => panic!("refused: {:?}", error),
    };
    match run.next_action() {
        ReconcileAction::Upsert(node) => {
            store.upsert(node);
            run.record(WriteOutcome::Written);
        }
        ReconcileAction::Finish(result) => panic!("finished early: {:?}", result),
    }
    match run.next_action() {
        ReconcileAction::Upsert(node) => {
            assert_eq!(node.public_key, "03bb");
            run.record(WriteOutcome::Failed);
        }
        ReconcileAction::Finish(result) => panic!("finished early: {:?}", result),
    }
    assert!(matches!(run.next_action(), ReconcileAction::Finish(Err(StoreError::WriteFailed))));
    run.record(WriteOutcome::Written);
    assert!(matches!(run.next_action(), ReconcileAction::Finish(Err(StoreError::WriteFailed))));
    assert_eq!(contents(&store), vec![fields(&snapshot()[0])]);
}

fn wire(public_key: &str, alias: &str, capacity: u64, first_seen: i64, updated_at: i64) -> MempoolNodeConnectivity {
    MempoolNodeConnectivity {
        public_key: public_key.to_string(),
        alias: alias.to_string(),
        capacity,
        first_seen,
        updated_at,
    }
}

#[test]
fn update_task_reconciles_a_fetched_ranking() {
    let mut store = NodeStore::new();
    store.upsert(node("02aa", "stale", 1, 1, 1));
    store.upsert(node("04dd", "dave", 9, 9, 9));
    let fetched = Ok(vec![wire("02aa", "alice", 500_000_000, 1_500_000_000, 1_700_000_100), wire("03bb", "bob", 2, 3, 4)]);
    assert_eq!(update_nodes_connectivity_task(&mut store, fetched), Ok(()));
    assert_eq!(
        contents(&store),
        vec![
            ("02aa".to_string(), "alice".to_string(), 500_000_000, 1_500_000_000, 1_700_000_100),
            ("03bb".to_string(), "bob".to_string(), 2, 3, 4),
            ("04dd".to_string(), "dave".to_string(), 9, 9, 9),
        ]
    );
}

#[test]
fn update_task_passes_a_failed_fetch_on_and_writes_nothing() {
    let mut store = NodeStore::new();
    store.upsert(node("04dd", "dave", 9, 9, 9));
    assert_eq!(
        update_nodes_connectivity_task(&mut store, Err(FetchError::Transport)),
        Err(UpdateError::Fetch(FetchError::Transport))
    );
    assert_eq!(
        update_nodes_connectivity_task(&mut store, Err(FetchError::Decode)),
        Err(UpdateError::Fetch(FetchError::Decode))
    );
    assert_eq!(
        update_nodes_connectivity_task(&mut store, Ok(Vec::new())),
        Err(UpdateError::Store(StoreError::EmptySnapshot))
    );
    assert_eq!(contents(&store), vec![("04dd".to_string(), "dave".to_string(), 9, 9, 9)]);
}

#[test]
fn failed_cycle_does_not_keep_the_next_from_updating() {
    let mut store = NodeStore::new();
    assert!(update_nodes_connectivity_task(&mut store, Err(FetchError::Transport)).is_err());
    assert_eq!(update_nodes_connectivity_task(&mut store, Ok(vec![wire("02aa", "alice", 1, 2, 3)])), Ok(()));
    assert_eq!(contents(&store), vec![("02aa".to_string(), "alice".to_string(), 1, 2, 3)]);
}
