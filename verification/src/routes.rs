//! The read path: the filter of `GET /nodes`, the query it becomes, and
//! the friendly records that answer it.

use crate::capacity::Binary64;
use crate::connectivity::{views, NodeConnectivity, NodeConnectivityView};
use crate::store::{
    admits, enumerates, lemma_nothing_reaches, mentions, select, threshold_of, NodeStore, Table,
    UNREACHABLE_CAPACITY,
};
use crate::timestamp::{first_seen_text, format_first_seen};
use vstd::prelude::*;

verus! {

/// Reads every record.
pub const SELECT_ALL_NODES: &'static str = "SELECT * FROM ln_node_connectivity";

/// Reads the records whose capacity reaches the bound `$min_capacity`.
pub const SELECT_NODES_WITH_CAPACITY: &'static str =
    "SELECT * FROM (SELECT *, first_seen FROM ln_node_connectivity WHERE capacity >= $min_capacity)";

/// Mathematical value of a friendly record.
pub struct FriendlyNodeConnectivityView {
    pub public_key: Seq<char>,
    pub alias: Seq<char>,
    pub capacity: Binary64,
    pub first_seen: Seq<char>,
}

/// The friendly node connectivity structure that the API returns.
#[derive(Debug)]
pub struct FriendlyNodeConnectivity {
    pub public_key: String,
    pub alias: String,
    /// Capacity in BTC, converted from satoshi, divided by 100M.
    pub capacity: Binary64,
    /// First seen datetime in ISO 8601 format.
    pub first_seen: String,
}

impl View for FriendlyNodeConnectivity {
    type V = FriendlyNodeConnectivityView;

    open spec fn view(&self) -> FriendlyNodeConnectivityView {
        FriendlyNodeConnectivityView {
            public_key: self.public_key@,
            alias: self.alias@,
            capacity: self.capacity,
            first_seen: self.first_seen@,
        }
    }
}

/// The friendly form of a record: key and alias as they are, the capacity
/// in bitcoin, and the time of first sight as text.
pub open spec fn friendly(node: NodeConnectivityView) -> FriendlyNodeConnectivityView {
    FriendlyNodeConnectivityView {
        public_key: node.public_key,
        alias: node.alias,
        capacity: Binary64::from_satoshi(node.capacity),
        first_seen: first_seen_text(node.first_seen),
    }
}

/// The mathematical values of a sequence of friendly records, in order.
pub open spec fn friendly_views(nodes: Seq<FriendlyNodeConnectivity>) -> Seq<FriendlyNodeConnectivityView> {
    nodes.map_values(|node: FriendlyNodeConnectivity| node@)
}

impl FriendlyNodeConnectivity {
    /// Makes the friendly form of a stored record.
    pub fn from_node(node: NodeConnectivity) -> (shown: Self)
        ensures
            shown@ == friendly(node@),
    {
        let first_seen = format_first_seen(node.first_seen);
        FriendlyNodeConnectivity {
            public_key: node.public_key,
            alias: node.alias,
            capacity: Binary64::from_satoshi(node.capacity),
            first_seen,
        }
    }
}

/// Filter parameters for the GET /nodes endpoint.
#[derive(Clone, Copy, Debug)]
pub struct NodeConnectivityFilter {
    min_capacity: Option<Binary64>,
}

impl NodeConnectivityFilter {
    /// The least capacity asked for, in BTC, if any was given.
    pub closed spec fn min_capacity(&self) -> Option<Binary64> {
        self.min_capacity
    }

    /// Whether the filter gives a least capacity below zero.
    pub open spec fn is_negative(&self) -> bool {
        self.min_capacity() matches Some(min_capacity) && min_capacity.is_negative()
    }

    /// The threshold in satoshi that the filter stands for. It is any
    /// integer, also one that no capacity reaches.
    pub open spec fn bound(&self) -> Option<int> {
        match self.min_capacity() {
            Some(min_capacity) => Some(min_capacity.in_satoshi()),
            None => None,
        }
    }

    /// Whether the filter's threshold is above every capacity.
    pub open spec fn is_unreachable(&self) -> bool {
        self.min_capacity() matches Some(min_capacity) && min_capacity.in_satoshi() > u64::MAX
    }

    /// The threshold as the store is asked for it: the filter's own where
    /// some capacity could reach it, and else the least bound that none
    /// reaches. The store answers both alike.
    pub open spec fn store_bound(&self) -> Option<int> {
        match self.min_capacity() {
            Some(min_capacity) => Some(
                if min_capacity.in_satoshi() <= u64::MAX {
                    min_capacity.in_satoshi()
                } else {
                    UNREACHABLE_CAPACITY as int
                },
            ),
            None => None,
        }
    }

    /// A filter with the given least capacity in BTC, or without one.
    pub fn new(min_capacity: Option<Binary64>) -> (filter: Self)
        ensures
            filter.min_capacity() == min_capacity,
    {
        NodeConnectivityFilter { min_capacity }
    }
}

/// Why a read request failed.
#[derive(Clone, Copy, Debug, PartialEq, Eq)]
pub enum QueryError {
    /// The request asked for a negative least capacity.
    InvalidArgument,
    /// The store could not answer.
    Store,
}

impl QueryError {
    /// The HTTP status that reports the error: 400 for a bad argument,
    /// 500 for a failure of the store.
    pub fn status_code(&self) -> (status: u16)
        ensures
            status == match *self {
                QueryError::InvalidArgument => 400u16,
                QueryError::Store => 500u16,
            },
    {
        match self {
            QueryError::InvalidArgument => 400,
            QueryError::Store => 500,
        }
    }
}

/// A read that the store is asked to answer: the statement, and the value
/// to bind to `$min_capacity`.
#[derive(Debug)]
pub struct NodesQuery {
    pub sql: &'static str,
    pub min_capacity: Option<u128>,
}

impl NodesQuery {
    /// What a store that holds `table` gives on the query.
    pub open spec fn answer(self, table: Table) -> Table {
        select(table, threshold_of(self.min_capacity))
    }
}

/// What the store gave back for a read.
#[derive(Debug)]
pub enum ReadOutcome {
    Rows(Vec<NodeConnectivity>),
    Failed,
}

/// Checks the filter and prepares the read for it. A negative least
/// capacity is refused, and then nothing is asked of the store. For every
/// other filter one read is planned: the least capacity is converted from
/// BTC to satoshi, and the statement with the bound is chosen where a least
/// capacity was given. A least capacity that comes to more than any
/// capacity counts is handed to the store as the least bound that no
/// capacity reaches, so that the store answers it too, with nothing.
pub fn plan_nodes_query(filter: &NodeConnectivityFilter) -> (planned: Result<NodesQuery, QueryError>)
    ensures
        filter.is_negative() ==> planned == Err::<NodesQuery, QueryError>(QueryError::InvalidArgument),
        !filter.is_negative() ==> planned is Ok && threshold_of(planned.unwrap().min_capacity)
            == filter.store_bound() && planned.unwrap().sql@ == if filter.min_capacity() is Some {
            SELECT_NODES_WITH_CAPACITY@
        } else {
            SELECT_ALL_NODES@
        },
        !filter.is_negative() ==> forall|table: Table| #[trigger]
            planned.unwrap().answer(table) == select(table, filter.bound()),
{
    let planned = match filter.min_capacity {
        Some(min_capacity) => {
            if min_capacity.is_negative() {
                return Err(QueryError::InvalidArgument);
            }
            let bound: u128 = match min_capacity.to_satoshi() {
                Some(satoshi) => satoshi as u128,
                None => UNREACHABLE_CAPACITY,
            };
            NodesQuery { sql: SELECT_NODES_WITH_CAPACITY, min_capacity: Some(bound) }
        },
        None => NodesQuery { sql: SELECT_ALL_NODES, min_capacity: None },
    };
    proof {
        assert forall|table: Table| #[trigger] planned.answer(table) == select(table, filter.bound()) by {
            lemma_store_bound_reads_the_same(*filter, table);
        }
    }
    Ok(planned)
}

/// Asked with the bound that is handed to it, the store answers as the
/// filter's own threshold asks: a threshold above every capacity and the
/// least bound that no capacity reaches both select nothing.
pub proof fn lemma_store_bound_reads_the_same(filter: NodeConnectivityFilter, table: Table)
    ensures
        select(table, filter.store_bound()) == select(table, filter.bound()),
{
    if filter.is_unreachable() {
        lemma_nothing_reaches(table, filter.bound().unwrap());
        lemma_nothing_reaches(table, filter.store_bound().unwrap());
    }
}

/// Makes the friendly form of each record, in order.
pub fn friendly_nodes(nodes: Vec<NodeConnectivity>) -> (shown: Vec<FriendlyNodeConnectivity>)
    ensures
        shown.len() == nodes.len(),
        friendly_views(shown@) == views(nodes@).map_values(|node: NodeConnectivityView| friendly(node)),
{
    let ghost all = views(nodes@);
    let mut shown: Vec<FriendlyNodeConnectivity> = Vec::new();
    for node in it: nodes
        invariant
            all == views(it.seq()),
            shown.len() == it.index(),
            forall|i: int| 0 <= i < shown.len() ==> (#[trigger] shown[i])@ == friendly(all[i]),
    {
        shown.push(FriendlyNodeConnectivity::from_node(node));
    }
    shown
}

/// Turns what the store gave back into the response: the friendly form of
/// every row, or `Store` and nothing else where the store failed.
pub fn respond(outcome: ReadOutcome) -> (response: Result<Vec<FriendlyNodeConnectivity>, QueryError>)
    ensures
        match outcome {
            ReadOutcome::Rows(rows) => response is Ok && response.unwrap().len() == rows.len()
                && friendly_views(response.unwrap()@) == views(rows@).map_values(
                |node: NodeConnectivityView| friendly(node),
            ),
            ReadOutcome::Failed => response == Err::<Vec<FriendlyNodeConnectivity>, QueryError>(
                QueryError::Store,
            ),
        },
{
    match outcome {
        ReadOutcome::Rows(rows) => Ok(friendly_nodes(rows)),
        ReadOutcome::Failed => Err(QueryError::Store),
    }
}

/// `response` shows the records of `table` in friendly form, each exactly
/// once, in some order.
pub open spec fn presents(response: Seq<FriendlyNodeConnectivityView>, table: Table) -> bool {
    exists|rows: Seq<NodeConnectivityView>| #[trigger]
        enumerates(rows, table) && response == rows.map_values(
            |node: NodeConnectivityView| friendly(node),
        )
}

/// A response that presents a read with a capacity bound holds exactly the
/// stored records whose capacity reaches the bound: every entry is the
/// friendly form of such a record, every such record has an entry, and no
/// two entries share a public key.
pub proof fn lemma_response_is_exact(
    response: Seq<FriendlyNodeConnectivityView>,
    table: Table,
    threshold: Option<int>,
)
    requires
        presents(response, select(table, threshold)),
    ensures
        forall|i: int|
            0 <= i < response.len() ==> {
                let key = (#[trigger] response[i]).public_key;
                &&& table.dom().contains(key)
                &&& admits(threshold, table[key])
                &&& response[i] == friendly(table[key])
            },
        forall|key: Seq<char>|
            #[trigger] table.dom().contains(key) && admits(threshold, table[key]) ==> exists|i: int|
                0 <= i < response.len() && #[trigger] response[i] == friendly(table[key]),
        forall|i: int, j: int|
            0 <= i < j < response.len() ==> (#[trigger] response[i]).public_key != (
            #[trigger] response[j]).public_key,
{
    let wanted = select(table, threshold);
    let rows = choose|rows: Seq<NodeConnectivityView>| #[trigger]
        enumerates(rows, wanted) && response == rows.map_values(
            |node: NodeConnectivityView| friendly(node),
        );
    assert forall|key: Seq<char>| #[trigger]
        table.dom().contains(key) && admits(threshold, table[key]) implies exists|i: int|
        0 <= i < response.len() && #[trigger] response[i] == friendly(table[key]) by {
        assert(wanted.dom().contains(key));
        let i = choose|i: int| 0 <= i < rows.len() && (#[trigger] rows[i]).public_key == key;
        assert(response[i] == friendly(rows[i]));
    }
}

/// Handler for the GET /nodes endpoint, over the in-memory store: answers
/// with exactly the stored records whose capacity reaches the filter's
/// least capacity, all of them where the filter has none, each in friendly
/// form. Where the least capacity is more than any capacity counts, the
/// answer is empty. A negative least capacity is an error.
pub fn get_nodes_connectivity_handler(store: &NodeStore, filter: NodeConnectivityFilter) -> (response: Result<
    Vec<FriendlyNodeConnectivity>,
    QueryError,
>)
    ensures
        filter.is_negative() ==> response == Err::<Vec<FriendlyNodeConnectivity>, QueryError>(
            QueryError::InvalidArgument,
        ),
        !filter.is_negative() ==> response is Ok && presents(
            friendly_views(response.unwrap()@),
            select(store@, filter.bound()),
        ),
        filter.is_unreachable() ==> response is Ok && response.unwrap().len() == 0,
{
    let query = match plan_nodes_query(&filter) {
        Ok(query) => query,
        Err(error) => {
            return Err(error);
        },
    };
    let rows = store.select(query.min_capacity);
    proof {
        assert(query.answer(store@) == select(store@, filter.bound()));
        assert(enumerates(views(rows@), select(store@, filter.bound())));
        if filter.is_unreachable() {
            lemma_nothing_reaches(store@, filter.bound().unwrap());
            if rows.len() > 0 {
                assert(select(store@, filter.bound()).dom().contains(views(rows@)[0].public_key));
            }
        }
    }
    respond(ReadOutcome::Rows(rows))
}

} // verus!
