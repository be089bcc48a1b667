//! The request/response vocabulary between a client and the daemon, and
//! the dispatch of one request against the store.

use vstd::prelude::*;

use crate::model::{
    blocked_items, filtered_items, find_item, has_item, ready_items, sort_items, StoreView,
};
use crate::store::{Store, StoreError};
use crate::types::{Edge, EdgeKind, Item, Status};

verus! {

/// The view of a stored tri-state description argument.
pub open spec fn oosv(o: Option<Option<String>>) -> Option<Option<Seq<char>>> {
    match o {
        Some(Some(s)) => Some(Some(s@)),
        Some(None) => Some(None),
        None => None,
    }
}

/// The view of a stored optional label list.
pub open spec fn ovsv(o: Option<Vec<String>>) -> Option<Seq<Seq<char>>> {
    match o {
        Some(v) => Some(v.deep_view()),
        None => None,
    }
}

/// One request from a client.
#[derive(Debug)]
pub enum Request {
    /// Create a new item.
    Create { title: String, priority: u8, labels: Vec<String>, description: Option<String> },
    /// Update an existing item; the doubled option distinguishes leaving
    /// the description alone from clearing it.
    Update {
        id: String,
        title: Option<String>,
        description: Option<Option<String>>,
        priority: Option<u8>,
        labels: Option<Vec<String>>,
    },
    /// Set an item's status.
    SetStatus { id: String, status: Status },
    /// Close an item.
    Close { id: String, reason: Option<String> },
    /// Add an edge between items.
    AddEdge { from_id: String, to_id: String, kind: EdgeKind },
    /// Remove an edge between items.
    RemoveEdge { from_id: String, to_id: String, kind: EdgeKind },
    /// Get an item by id.
    Get { id: String },
    /// List items, optionally by status.
    List { status: Option<Status> },
    /// The items ready to work on.
    Ready,
    /// The items kept from being ready.
    Blocked,
    /// Flush pending writes.
    Flush,
    /// Stop the daemon.
    Shutdown,
    /// Liveness probe.
    Ping,
}

/// One response from the daemon.
#[derive(Debug)]
pub enum Response {
    /// A single item.
    Item { item: Item },
    /// A list of items.
    Items { items: Vec<Item> },
    /// A single edge.
    Edge { edge: Edge },
    /// No item with the given id.
    NotFound { id: String },
    /// The operation succeeded. On the wire this is the `Ok` response;
    /// here the prelude owns that name.
    Done,
    /// Reply to a liveness probe.
    Pong,
    /// The operation failed.
    Error { message: String },
}

impl Response {
    /// An error response with the given message.
    pub fn error(message: String) -> (r: Response)
        ensures
            r matches Response::Error { message: m } && m@ == message@,
    {
        Response::Error { message }
    }
}

fn str_refs(v: &Vec<String>) -> (r: Vec<&str>)
    ensures
        crate::store::labels_view(r@) == v.deep_view(),
{
    let mut r: Vec<&str> = Vec::new();
    let mut i: usize = 0;
    while i < v.len()
        invariant
            i <= v@.len(),
            r@.len() == i,
            forall|j: int| 0 <= j < i ==> #[trigger] r@[j]@ == v@[j]@,
        decreases v@.len() - i,
    {
        r.push(v[i].as_str());
        i = i + 1;
    }
    proof {
        assert(crate::store::labels_view(r@) =~= v.deep_view());
    }
    r
}

/// Serve one request against the store: mutations go through the store's
/// operations, queries read the cache, and domain errors come back as
/// error responses without touching the state. Each mutating arm carries
/// the contract of the operation it calls.
pub fn handle_request(store: &mut Store, req: Request) -> (r: Response)
    requires
        old(store)@.wf(),
        old(store)@.items_lines < u64::MAX,
        old(store)@.edges_lines < u64::MAX,
    ensures
        final(store)@.wf(),
        old(store)@.dag() ==> final(store)@.dag(),
        match req {
            Request::Ping => r is Pong && final(store)@ == old(store)@,
            Request::Flush => r is Done && final(store)@ == old(store)@,
            Request::Shutdown => r is Done && final(store)@ == old(store)@,
            Request::Ready => final(store)@ == old(store)@ && (r matches Response::Items { items }
                && items.deep_view() == sort_items(
                ready_items(old(store)@.items, old(store)@.edges, old(store)@.items),
            )),
            Request::Blocked => final(store)@ == old(store)@ && (r matches Response::Items { items }
                && items.deep_view() == sort_items(
                blocked_items(old(store)@.items, old(store)@.edges, old(store)@.items),
            )),
            Request::List { status } => final(store)@ == old(store)@ && (r matches Response::Items {
                items,
            } && items.deep_view() == sort_items(filtered_items(old(store)@.items, status))),
            Request::Get { id } => final(store)@ == old(store)@ && match r {
                Response::Item { item } => find_item(old(store)@.items, id@) == Some(item@),
                Response::NotFound { id: nid } => nid@ == id@ && !has_item(old(store)@.items, id@),
                _ => false,
            },
            Request::RemoveEdge { from_id, to_id, kind } => r is Done && !crate::model::has_edge(
                final(store)@.edges,
                from_id@,
                to_id@,
                kind,
            ),
            Request::Create { title, priority, labels, description } => match r {
                Response::Item { item } => crate::model::validate_new(
                    title@,
                    priority,
                    labels.deep_view(),
                ) is Ok && crate::id::id_format(item@.id) && item@ == crate::model::new_item_view(
                    item@.id,
                    title@,
                    crate::codec::osv(description),
                    priority,
                    labels.deep_view(),
                    item@.created_at,
                ) && final(store)@ == crate::store::with_item_rec(old(store)@, item@),
                Response::Error { .. } => final(store)@ == old(store)@ && crate::model::validate_new(
                    title@,
                    priority,
                    labels.deep_view(),
                ) is Err,
                _ => false,
            },
            Request::Update { id, title, description, priority, labels } => match r {
                Response::Item { item } => has_item(old(store)@.items, id@) && item@
                    == crate::store::merged_item(
                    find_item(old(store)@.items, id@)->0,
                    crate::codec::osv(title),
                    oosv(description),
                    priority,
                    ovsv(labels),
                    item@.updated_at,
                ) && crate::types::spec_validate(item@) is Ok && final(store)@
                    == crate::store::with_item_rec(old(store)@, item@),
                Response::Error { .. } => final(store)@ == old(store)@,
                _ => false,
            },
            Request::SetStatus { id, status } => match r {
                Response::Item { item } => has_item(old(store)@.items, id@) && find_item(
                    old(store)@.items,
                    id@,
                )->0.status.spec_can_transition_to(status) && item@
                    == crate::store::restatused_item(
                    find_item(old(store)@.items, id@)->0,
                    status,
                    item@.updated_at,
                ) && final(store)@ == crate::store::with_item_rec(old(store)@, item@),
                Response::Error { .. } => final(store)@ == old(store)@,
                _ => false,
            },
            Request::Close { id, reason } => match r {
                Response::Item { item } => has_item(old(store)@.items, id@) && item@
                    == crate::store::closed_item(
                    find_item(old(store)@.items, id@)->0,
                    crate::codec::osv(reason),
                    item@.updated_at,
                ) && final(store)@ == crate::store::with_item_rec(old(store)@, item@),
                Response::Error { .. } => final(store)@ == old(store)@ && !has_item(
                    old(store)@.items,
                    id@,
                ),
                _ => false,
            },
            Request::AddEdge { from_id, to_id, kind } => match r {
                Response::Edge { edge } => from_id@ != to_id@ && has_item(
                    old(store)@.items,
                    from_id@,
                ) && has_item(old(store)@.items, to_id@) && edge@ == (crate::types::EdgeView {
                    from_id: from_id@,
                    to_id: to_id@,
                    kind: kind,
                    created_at: edge@.created_at,
                    deleted: false,
                }) && (crate::model::has_edge(old(store)@.edges, from_id@, to_id@, kind)
                    ==> final(store)@ == old(store)@) && (!crate::model::has_edge(
                    old(store)@.edges,
                    from_id@,
                    to_id@,
                    kind,
                ) ==> final(store)@ == crate::store::with_edge_rec(old(store)@, edge@)),
                Response::Error { .. } => final(store)@ == old(store)@,
                _ => false,
            },
        },
{
    match &req {
        Request::Create { title, priority, labels, description } => {
            let refs = str_refs(labels);
            let desc: Option<&str> = match description {
                Some(d) => Some(d.as_str()),
                None => None,
            };
            match store.create(title.as_str(), *priority, refs.as_slice(), desc) {
                Ok(item) => Response::Item { item },
                Err(e) => Response::error(e.message()),
            }
        },
        Request::Update { id, title, description, priority, labels } => {
            let t: Option<&str> = match title {
                Some(s) => Some(s.as_str()),
                None => None,
            };
            let d: Option<Option<&str>> = match description {
                Some(Some(s)) => Some(Some(s.as_str())),
                Some(None) => Some(None),
                None => None,
            };
            let refs: Option<Vec<&str>> = match labels {
                Some(ls) => Some(str_refs(ls)),
                None => None,
            };
            let lref: Option<&[&str]> = match &refs {
                Some(v) => Some(v.as_slice()),
                None => None,
            };
            match store.update(id.as_str(), t, d, *priority, lref) {
                Ok(item) => Response::Item { item },
                Err(e) => Response::error(e.message()),
            }
        },
        Request::SetStatus { id, status } => {
            match store.set_status(id.as_str(), *status) {
                Ok(item) => Response::Item { item },
                Err(e) => Response::error(e.message()),
            }
        },
        Request::Close { id, reason } => {
            let rs: Option<&str> = match reason {
                Some(s) => Some(s.as_str()),
                None => None,
            };
            match store.close(id.as_str(), rs) {
                Ok(item) => Response::Item { item },
                Err(e) => Response::error(e.message()),
            }
        },
        Request::AddEdge { from_id, to_id, kind } => {
            match store.add_edge(from_id.as_str(), to_id.as_str(), *kind) {
                Ok(edge) => Response::Edge { edge },
                Err(e) => Response::error(e.message()),
            }
        },
        Request::RemoveEdge { from_id, to_id, kind } => {
            store.remove_edge(from_id.as_str(), to_id.as_str(), *kind);
            Response::Done
        },
        Request::Get { id } => {
            match store.get(id.as_str()) {
                Some(item) => Response::Item { item },
                None => Response::NotFound { id: id.clone() },
            }
        },
        Request::List { status } => {
            Response::Items { items: store.list(*status) }
        },
        Request::Ready => {
            Response::Items { items: store.ready() }
        },
        Request::Blocked => {
            Response::Items { items: store.blocked() }
        },
        Request::Flush => Response::Done,
        Request::Shutdown => Response::Done,
        Request::Ping => Response::Pong,
    }
}

} // verus!
