//! The general properties the store guarantees, stated over the model and
//! proved once and for all.

use vstd::prelude::*;

use crate::codec::{parse_edge_line, parse_item_line, serialize_edge, serialize_item};
use crate::model::{
    blocked_via, dec_edge, dec_item, decoded_edges, decoded_items, find_item, has_blocker,
    has_edge, has_item, is_ready, lemma_upsert_edge_ok, lemma_upsert_item_unique, live_edges,
    replay_edges, replay_items, unique_ids, unique_triples, upsert_edge, upsert_item, StoreView,
};
use crate::store::closed_item;
use crate::types::{Edge, EdgeView, Item, ItemView};

verus! {

/// Round trip for items: decoding the encoding of any item yields the
/// item back, field for field.
pub fn decode_of_encode_item(it: &Item) -> (r: Option<Item>)
    ensures
        r matches Some(it2) && it2@ == it@,
{
    let line = serialize_item(it);
    parse_item_line(line.as_str())
}

/// Round trip for edges: decoding the encoding of any edge yields the
/// edge back, field for field.
pub fn decode_of_encode_edge(e: &Edge) -> (r: Option<Edge>)
    ensures
        r matches Some(e2) && e2@ == e@,
{
    let line = serialize_edge(e);
    parse_edge_line(line.as_str())
}

/// Create-read consistency: after a record is appended for an id, reading
/// that id yields exactly that record, and every other id reads as before.
pub proof fn lemma_create_read(items: Seq<ItemView>, it: ItemView)
    requires
        unique_ids(items),
    ensures
        find_item(upsert_item(items, it), it.id) == Some(it),
        forall|id: Seq<char>| id != it.id ==> #[trigger] find_item(upsert_item(items, it), id)
            == find_item(items, id),
{
    lemma_upsert_item_unique(items, it);
}

/// Rebuild determinism: the replayed state is a function of the log lines
/// alone, so two rebuilds of the same logs agree exactly.
pub proof fn lemma_rebuild_deterministic(
    a: StoreView,
    b: StoreView,
    item_lines: Seq<Seq<char>>,
    edge_lines: Seq<Seq<char>>,
)
    requires
        a.item_log == decoded_items(item_lines),
        b.item_log == decoded_items(item_lines),
        a.edge_log == decoded_edges(edge_lines),
        b.edge_log == decoded_edges(edge_lines),
        a.items == replay_items(a.item_log),
        b.items == replay_items(b.item_log),
        a.edges == replay_edges(a.edge_log),
        b.edges == replay_edges(b.edge_log),
    ensures
        a.items == b.items,
        a.edges == b.edges,
{
}

/// Log-cache equivalence: in a well-formed store the cache is exactly
/// what replaying the logs yields.
pub proof fn lemma_log_cache_equivalence(s: StoreView)
    requires
        s.wf(),
    ensures
        s.items == replay_items(s.item_log),
        s.edges == replay_edges(s.edge_log),
{
}

/// Edge idempotence: after a non-tombstone record for a triple, exactly
/// one edge with that triple stands in the graph, however often it is
/// re-added; a repeated add leaves the state untouched by the contract of
/// `add_edge`.
pub proof fn lemma_add_edge_idempotent(edges: Seq<EdgeView>, e: EdgeView)
    requires
        unique_triples(edges),
        live_edges(edges),
        !e.deleted,
    ensures
        has_edge(upsert_edge(edges, e), e.from_id, e.to_id, e.kind),
        unique_triples(upsert_edge(edges, e)),
{
    lemma_upsert_edge_ok(edges, e);
}

/// Readiness monotonicity: closing one item never removes another item
/// from the ready set.
pub proof fn lemma_close_keeps_ready(
    items: Seq<ItemView>,
    edges: Seq<EdgeView>,
    xid: Seq<char>,
    reason: Option<Seq<char>>,
    now: Seq<char>,
    it: ItemView,
)
    requires
        unique_ids(items),
        has_item(items, xid),
        is_ready(items, edges, it),
        it.id != xid,
    ensures
        is_ready(
            upsert_item(items, closed_item(find_item(items, xid)->0, reason, now)),
            edges,
            it,
        ),
{
    let ex = find_item(items, xid)->0;
    let c = closed_item(ex, reason, now);
    assert(c.id == xid);
    lemma_upsert_item_unique(items, c);
    let items2 = upsert_item(items, c);
    if has_blocker(items2, edges, it) {
        let k = choose|k: int| blocked_via(items2, edges, it, k);
        assert(blocked_via(items2, edges, it, k));
        let z = if edges[k].kind == crate::types::EdgeKind::Blocks {
            edges[k].to_id
        } else {
            edges[k].from_id
        };
        assert(crate::model::nonclosed(items2, z));
        if z == xid {
            assert(find_item(items2, xid) == Some(c));
            assert(c.status == crate::types::Status::Closed);
        } else {
            assert(find_item(items2, z) == find_item(items, z));
            assert(crate::model::nonclosed(items, z));
            assert(blocked_via(items, edges, it, k));
            assert(has_blocker(items, edges, it));
        }
    }
}

/// The DAG invariant: an edge that the cycle guard admits keeps the
/// blocking subgraph acyclic, so any run of successful `add_edge` calls
/// leaves it a directed acyclic graph; every other operation preserves
/// acyclicity outright, by its own contract.
pub proof fn lemma_dag_preserved(edges: Seq<EdgeView>, e: EdgeView)
    requires
        crate::graph::acyclic(edges),
        e.kind.spec_is_blocking() ==> !crate::graph::reaches(edges, e.to_id, e.from_id)
            && e.from_id != e.to_id,
    ensures
        crate::graph::acyclic(edges.push(e)),
{
    crate::graph::lemma_acyclic_push(edges, e);
}

/// Recovery from a corrupt trailing line: a line that does not decode
/// leaves the replayed item state exactly as it was.
pub proof fn lemma_corrupt_item_line_skipped(lines: Seq<Seq<char>>, bad: Seq<char>)
    requires
        dec_item(bad) is None,
    ensures
        decoded_items(lines.push(bad)) == decoded_items(lines),
{
    assert(lines.push(bad).drop_last() =~= lines);
    assert(lines.push(bad).last() == bad);
}

/// The same for the edge log.
pub proof fn lemma_corrupt_edge_line_skipped(lines: Seq<Seq<char>>, bad: Seq<char>)
    requires
        dec_edge(bad) is None,
    ensures
        decoded_edges(lines.push(bad)) == decoded_edges(lines),
{
    assert(lines.push(bad).drop_last() =~= lines);
    assert(lines.push(bad).last() == bad);
}

} // verus!
