//! The mathematical model of the store: what the logs decode to, how the
//! derived index follows from them, and what the graph queries mean.

use vstd::prelude::*;

use crate::codec::{ser_edge, ser_item};
use crate::text::lex_le;
use crate::types::{EdgeKind, EdgeView, ItemView, Status};


verus! {

/// What one item log line decodes to: the view whose canonical image the
/// line is, if there is one.
pub open spec fn dec_item(line: Seq<char>) -> Option<ItemView> {
    if exists|w: ItemView| line == ser_item(w) {
        Some(choose|w: ItemView| line == ser_item(w))
    } else {
        None
    }
}

/// What one edge log line decodes to.
pub open spec fn dec_edge(line: Seq<char>) -> Option<EdgeView> {
    if exists|w: EdgeView| line == ser_edge(w) {
        Some(choose|w: EdgeView| line == ser_edge(w))
    } else {
        None
    }
}

/// Some item in the cache carries this id.
pub open spec fn has_item(items: Seq<ItemView>, id: Seq<char>) -> bool {
    exists|i: int| 0 <= i < items.len() && items[i].id == id
}

/// The position of the item with this id.
pub open spec fn item_index(items: Seq<ItemView>, id: Seq<char>) -> int {
    choose|i: int| 0 <= i < items.len() && items[i].id == id
}

/// The cached item with this id, if any.
pub open spec fn find_item(items: Seq<ItemView>, id: Seq<char>) -> Option<ItemView> {
    if has_item(items, id) {
        Some(items[item_index(items, id)])
    } else {
        None
    }
}

/// No two cached items share an id.
pub open spec fn unique_ids(items: Seq<ItemView>) -> bool {
    forall|i: int, j: int| 0 <= i < j < items.len() ==> items[i].id != items[j].id
}

/// A record replaces the cached item with its id, or takes a new slot at
/// the end.
pub open spec fn upsert_item(items: Seq<ItemView>, it: ItemView) -> Seq<ItemView> {
    if has_item(items, it.id) {
        items.update(item_index(items, it.id), it)
    } else {
        items.push(it)
    }
}

/// Some live edge in the cache carries this triple.
pub open spec fn has_edge(edges: Seq<EdgeView>, f: Seq<char>, t: Seq<char>, k: EdgeKind) -> bool {
    exists|i: int|
        0 <= i < edges.len() && edges[i].from_id == f && edges[i].to_id == t && edges[i].kind == k
}

/// The position of the edge with this triple.
pub open spec fn edge_index(edges: Seq<EdgeView>, f: Seq<char>, t: Seq<char>, k: EdgeKind) -> int {
    choose|i: int|
        0 <= i < edges.len() && edges[i].from_id == f && edges[i].to_id == t && edges[i].kind == k
}

/// No two cached edges share a triple.
pub open spec fn unique_triples(edges: Seq<EdgeView>) -> bool {
    forall|i: int, j: int|
        0 <= i < j < edges.len() ==> !(edges[i].from_id == edges[j].from_id && edges[i].to_id
            == edges[j].to_id && edges[i].kind == edges[j].kind)
}

/// Every cached edge is live: tombstones never stand in the cache.
pub open spec fn live_edges(edges: Seq<EdgeView>) -> bool {
    forall|i: int| 0 <= i < edges.len() ==> !(#[trigger] edges[i]).deleted
}

/// A non-tombstone record replaces the edge with its triple or appends it.
pub open spec fn upsert_edge(edges: Seq<EdgeView>, e: EdgeView) -> Seq<EdgeView> {
    if has_edge(edges, e.from_id, e.to_id, e.kind) {
        edges.update(edge_index(edges, e.from_id, e.to_id, e.kind), e)
    } else {
        edges.push(e)
    }
}

/// A tombstone removes the edge with its triple, if present.
pub open spec fn remove_edge_triple(
    edges: Seq<EdgeView>,
    f: Seq<char>,
    t: Seq<char>,
    k: EdgeKind,
) -> Seq<EdgeView> {
    if has_edge(edges, f, t, k) {
        edges.remove(edge_index(edges, f, t, k))
    } else {
        edges
    }
}

/// How one edge record changes the cache.
pub open spec fn apply_edge(edges: Seq<EdgeView>, e: EdgeView) -> Seq<EdgeView> {
    if e.deleted {
        remove_edge_triple(edges, e.from_id, e.to_id, e.kind)
    } else {
        upsert_edge(edges, e)
    }
}

/// The item cache that replaying a log of records yields: for each id, the
/// last record wins, standing at the slot its first record took.
pub open spec fn replay_items(log: Seq<ItemView>) -> Seq<ItemView>
    decreases log.len(),
{
    if log.len() == 0 {
        Seq::empty()
    } else {
        upsert_item(replay_items(log.drop_last()), log.last())
    }
}

/// The edge cache that replaying a log of records yields.
pub open spec fn replay_edges(log: Seq<EdgeView>) -> Seq<EdgeView>
    decreases log.len(),
{
    if log.len() == 0 {
        Seq::empty()
    } else {
        apply_edge(replay_edges(log.drop_last()), log.last())
    }
}

/// The records an item log holds: each line that decodes, in order;
/// undecodable lines are skipped.
pub open spec fn decoded_items(lines: Seq<Seq<char>>) -> Seq<ItemView>
    decreases lines.len(),
{
    if lines.len() == 0 {
        Seq::empty()
    } else {
        let pre = decoded_items(lines.drop_last());
        match dec_item(lines.last()) {
            Some(w) => pre.push(w),
            None => pre,
        }
    }
}

/// The records an edge log holds.
pub open spec fn decoded_edges(lines: Seq<Seq<char>>) -> Seq<EdgeView>
    decreases lines.len(),
{
    if lines.len() == 0 {
        Seq::empty()
    } else {
        let pre = decoded_edges(lines.drop_last());
        match dec_edge(lines.last()) {
            Some(w) => pre.push(w),
            None => pre,
        }
    }
}

/// The cached item with this id is not Closed. An edge whose endpoint is
/// unknown to the cache blocks nothing.
pub open spec fn nonclosed(items: Seq<ItemView>, id: Seq<char>) -> bool {
    has_item(items, id) && find_item(items, id)->0.status != Status::Closed
}

/// The edge at position `k` keeps item `i` from being ready: an outgoing
/// Blocks edge to a non-Closed target, or an incoming ParentChild edge
/// from a non-Closed child.
pub open spec fn blocked_via(
    items: Seq<ItemView>,
    edges: Seq<EdgeView>,
    it: ItemView,
    k: int,
) -> bool {
    0 <= k < edges.len() && ((edges[k].kind == EdgeKind::Blocks && edges[k].from_id == it.id
        && nonclosed(items, edges[k].to_id)) || (edges[k].kind == EdgeKind::ParentChild
        && edges[k].to_id == it.id && nonclosed(items, edges[k].from_id)))
}

/// Something keeps this item from being ready.
pub open spec fn has_blocker(items: Seq<ItemView>, edges: Seq<EdgeView>, it: ItemView) -> bool {
    exists|k: int| blocked_via(items, edges, it, k)
}

/// Ready: Open, with no live blocking edge to or from a non-Closed item.
pub open spec fn is_ready(items: Seq<ItemView>, edges: Seq<EdgeView>, it: ItemView) -> bool {
    it.status == Status::Open && !has_blocker(items, edges, it)
}

/// Blocked: Open, but something keeps it from being ready.
pub open spec fn is_blocked_item(items: Seq<ItemView>, edges: Seq<EdgeView>, it: ItemView) -> bool {
    it.status == Status::Open && has_blocker(items, edges, it)
}

/// Query order: ascending priority, ties by ascending creation instant.
pub open spec fn key_le(a: ItemView, b: ItemView) -> bool {
    a.priority < b.priority || (a.priority == b.priority && lex_le(a.created_at, b.created_at))
}

/// Insert an item behind every earlier-or-equal element: a stable insertion.
pub open spec fn insert_sorted(x: ItemView, s: Seq<ItemView>) -> Seq<ItemView>
    decreases s.len(),
{
    if s.len() == 0 {
        seq![x]
    } else if key_le(s[0], x) {
        seq![s[0]] + insert_sorted(x, s.drop_first())
    } else {
        seq![x] + s
    }
}

/// Sort items by the query order, stably.
pub open spec fn sort_items(s: Seq<ItemView>) -> Seq<ItemView>
    decreases s.len(),
{
    if s.len() == 0 {
        Seq::empty()
    } else {
        insert_sorted(s.last(), sort_items(s.drop_last()))
    }
}

/// The cached items that are ready, in cache order.
pub open spec fn ready_items(
    items: Seq<ItemView>,
    edges: Seq<EdgeView>,
    s: Seq<ItemView>,
) -> Seq<ItemView>
    decreases s.len(),
{
    if s.len() == 0 {
        Seq::empty()
    } else {
        let pre = ready_items(items, edges, s.drop_last());
        if is_ready(items, edges, s.last()) {
            pre.push(s.last())
        } else {
            pre
        }
    }
}

/// The cached items that are blocked, in cache order.
pub open spec fn blocked_items(
    items: Seq<ItemView>,
    edges: Seq<EdgeView>,
    s: Seq<ItemView>,
) -> Seq<ItemView>
    decreases s.len(),
{
    if s.len() == 0 {
        Seq::empty()
    } else {
        let pre = blocked_items(items, edges, s.drop_last());
        if is_blocked_item(items, edges, s.last()) {
            pre.push(s.last())
        } else {
            pre
        }
    }
}

/// Whether an item passes a status filter.
pub open spec fn passes_filter(it: ItemView, filt: Option<Status>) -> bool {
    match filt {
        Some(st) => it.status == st,
        None => true,
    }
}

/// The cached items passing a status filter, in cache order.
pub open spec fn filtered_items(s: Seq<ItemView>, filt: Option<Status>) -> Seq<ItemView>
    decreases s.len(),
{
    if s.len() == 0 {
        Seq::empty()
    } else {
        let pre = filtered_items(s.drop_last(), filt);
        if passes_filter(s.last(), filt) {
            pre.push(s.last())
        } else {
            pre
        }
    }
}

/// The whole store: the two logs, the cache derived from them, and the
/// line counts consumed from each log.
#[verifier::ext_equal]
pub struct StoreView {
    pub item_log: Seq<ItemView>,
    pub edge_log: Seq<EdgeView>,
    pub items: Seq<ItemView>,
    pub edges: Seq<EdgeView>,
    pub items_lines: int,
    pub edges_lines: int,
    pub pending: Seq<Seq<char>>,
}

impl StoreView {
    /// Log-cache equivalence and the structural invariants: the cache is
    /// exactly what replaying the logs yields, ids and triples are unique,
    /// no tombstone stands in the cache, and the blocking subgraph is
    /// acyclic.
    pub open spec fn wf(self) -> bool {
        &&& self.items == replay_items(self.item_log)
        &&& self.edges == replay_edges(self.edge_log)
        &&& unique_ids(self.items)
        &&& unique_triples(self.edges)
        &&& live_edges(self.edges)
        &&& 0 <= self.items_lines <= u64::MAX
        &&& 0 <= self.edges_lines <= u64::MAX
    }

    /// The blocking subgraph is a directed acyclic graph.
    pub open spec fn dag(self) -> bool {
        crate::graph::acyclic(self.edges)
    }
}

/// A freshly created item: Open, stamped with one instant.
pub open spec fn new_item_view(
    id: Seq<char>,
    title: Seq<char>,
    description: Option<Seq<char>>,
    priority: u8,
    labels: Seq<Seq<char>>,
    now: Seq<char>,
) -> ItemView {
    ItemView {
        id: id,
        title: title,
        description: description,
        status: Status::Open,
        priority: priority,
        labels: labels,
        created_at: now,
        updated_at: now,
        closed_at: None,
        close_reason: None,
    }
}

/// What validating a fresh item yields: only the title, priority and label
/// checks can fail.
pub open spec fn validate_new(
    title: Seq<char>,
    priority: u8,
    labels: Seq<Seq<char>>,
) -> Result<(), crate::types::ValidationErrorView> {
    match crate::types::title_check(title) {
        Err(e) => Err(e),
        Ok(()) => if priority > 4 {
            Err(crate::types::ValidationErrorView::InvalidPriority)
        } else {
            match crate::types::first_bad_label(labels) {
                Some(l) => Err(crate::types::ValidationErrorView::InvalidLabel(l)),
                None => Ok(()),
            }
        },
    }
}

/// Lexicographic order is reflexive.
pub proof fn lemma_lex_refl(a: Seq<char>)
    ensures
        lex_le(a, a),
    decreases a.len(),
{
    if a.len() > 0 {
        lemma_lex_refl(a.drop_first());
    }
}

/// Validating a fresh item is validating its three caller-given fields.
pub proof fn lemma_validate_new(
    id: Seq<char>,
    title: Seq<char>,
    description: Option<Seq<char>>,
    priority: u8,
    labels: Seq<Seq<char>>,
    now: Seq<char>,
)
    ensures
        crate::types::spec_validate(new_item_view(id, title, description, priority, labels, now))
            == validate_new(title, priority, labels),
{
    lemma_lex_refl(now);
}

/// Upserting keeps ids unique.
pub proof fn lemma_upsert_item_unique(items: Seq<ItemView>, it: ItemView)
    requires
        unique_ids(items),
    ensures
        unique_ids(upsert_item(items, it)),
        has_item(upsert_item(items, it), it.id),
        find_item(upsert_item(items, it), it.id) == Some(it),
        forall|id: Seq<char>| id != it.id ==> #[trigger] find_item(upsert_item(items, it), id)
            == find_item(items, id),
{
    let r = upsert_item(items, it);
    if has_item(items, it.id) {
        let i = item_index(items, it.id);
        assert(0 <= i < items.len() && items[i].id == it.id);
        assert(r == items.update(i, it));
        assert(forall|j: int| 0 <= j < r.len() && j != i ==> r[j] == items[j]);
        assert(r[i] == it);
        assert(unique_ids(r));
        assert(r[item_index(r, it.id)].id == it.id);
        assert(item_index(r, it.id) == i);
        assert forall|id: Seq<char>| id != it.id implies #[trigger] find_item(r, id) == find_item(
            items,
            id,
        ) by {
            if has_item(items, id) {
                let j = item_index(items, id);
                assert(j != i);
                assert(r[j].id == id);
                assert(has_item(r, id));
                assert(item_index(r, id) == j);
            }
            if has_item(r, id) {
                let j = item_index(r, id);
                assert(j != i);
                assert(items[j].id == id);
                assert(has_item(items, id));
            }
        }
    } else {
        assert(r == items.push(it));
        assert(forall|j: int| 0 <= j < items.len() ==> items[j].id != it.id) by {
            assert forall|j: int| 0 <= j < items.len() implies items[j].id != it.id by {
                if items[j].id == it.id {
                    assert(has_item(items, it.id));
                }
            }
        }
        assert(unique_ids(r));
        assert(r[items.len() as int].id == it.id);
        assert(item_index(r, it.id) == items.len());
        assert forall|id: Seq<char>| id != it.id implies #[trigger] find_item(r, id) == find_item(
            items,
            id,
        ) by {
            if has_item(items, id) {
                let j = item_index(items, id);
                assert(r[j].id == id);
                assert(has_item(r, id));
                assert(item_index(r, id) == j);
            }
            if has_item(r, id) {
                let j = item_index(r, id);
                assert(j < items.len());
                assert(has_item(items, id));
            }
        }
    }
}

/// Replacing the record of a present id leaves every membership question
/// as it was.
pub proof fn lemma_upsert_preserves_ids(items: Seq<ItemView>, it: ItemView)
    requires
        has_item(items, it.id),
    ensures
        forall|x: Seq<char>| #[trigger] has_item(upsert_item(items, it), x) == has_item(items, x),
{
    let i = item_index(items, it.id);
    assert(0 <= i < items.len() && items[i].id == it.id);
    let r = upsert_item(items, it);
    assert(r == items.update(i, it));
    assert forall|x: Seq<char>| #[trigger] has_item(r, x) == has_item(items, x) by {
        if has_item(items, x) {
            let j = choose|j: int| 0 <= j < items.len() && items[j].id == x;
            if j == i {
                assert(r[i].id == x);
            } else {
                assert(r[j].id == x);
            }
            assert(has_item(r, x));
        }
        if has_item(r, x) {
            let j = choose|j: int| 0 <= j < r.len() && r[j].id == x;
            if j == i {
                assert(items[i].id == x);
            } else {
                assert(items[j].id == x);
            }
            assert(has_item(items, x));
        }
    }
}

/// Appending a record to the log upserts it into the replayed cache.
pub proof fn lemma_replay_items_push(log: Seq<ItemView>, it: ItemView)
    ensures
        replay_items(log.push(it)) == upsert_item(replay_items(log), it),
{
    assert(log.push(it).drop_last() =~= log);
    assert(log.push(it).last() == it);
}

/// Appending a record to the edge log applies it to the replayed cache.
pub proof fn lemma_replay_edges_push(log: Seq<EdgeView>, e: EdgeView)
    ensures
        replay_edges(log.push(e)) == apply_edge(replay_edges(log), e),
{
    assert(log.push(e).drop_last() =~= log);
    assert(log.push(e).last() == e);
}

/// A non-tombstone record keeps triples unique and the cache live.
pub proof fn lemma_upsert_edge_ok(edges: Seq<EdgeView>, e: EdgeView)
    requires
        unique_triples(edges),
        live_edges(edges),
        !e.deleted,
    ensures
        unique_triples(upsert_edge(edges, e)),
        live_edges(upsert_edge(edges, e)),
        has_edge(upsert_edge(edges, e), e.from_id, e.to_id, e.kind),
{
    let r = upsert_edge(edges, e);
    if has_edge(edges, e.from_id, e.to_id, e.kind) {
        let i = edge_index(edges, e.from_id, e.to_id, e.kind);
        assert(0 <= i < edges.len());
        assert(r == edges.update(i, e));
        assert(forall|j: int| 0 <= j < r.len() && j != i ==> r[j] == edges[j]);
        assert(r[i] == e);
    } else {
        assert(r == edges.push(e));
        assert forall|j: int|
            0 <= j < edges.len() implies !(edges[j].from_id == e.from_id && edges[j].to_id
            == e.to_id && edges[j].kind == e.kind) by {
            if edges[j].from_id == e.from_id && edges[j].to_id == e.to_id && edges[j].kind
                == e.kind {
                assert(has_edge(edges, e.from_id, e.to_id, e.kind));
            }
        }
        assert(r[edges.len() as int] == e);
    }
}

/// A tombstone keeps triples unique and the cache live, and afterwards the
/// triple is gone.
pub proof fn lemma_remove_edge_ok(edges: Seq<EdgeView>, f: Seq<char>, t: Seq<char>, k: EdgeKind)
    requires
        unique_triples(edges),
        live_edges(edges),
    ensures
        unique_triples(remove_edge_triple(edges, f, t, k)),
        live_edges(remove_edge_triple(edges, f, t, k)),
        !has_edge(remove_edge_triple(edges, f, t, k), f, t, k),
{
    let r = remove_edge_triple(edges, f, t, k);
    if has_edge(edges, f, t, k) {
        let i = edge_index(edges, f, t, k);
        assert(0 <= i < edges.len());
        assert(r == edges.remove(i));
        assert(forall|j: int| 0 <= j < i ==> r[j] == edges[j]);
        assert(forall|j: int| i <= j < r.len() ==> r[j] == edges[j + 1]);
        assert forall|j: int|
            0 <= j < r.len() implies !(r[j].from_id == f && r[j].to_id == t && r[j].kind == k) by {
            if j < i {
                assert(r[j] == edges[j]);
            } else {
                assert(r[j] == edges[j + 1]);
            }
        }
    } else {
        assert forall|j: int|
            0 <= j < r.len() implies !(r[j].from_id == f && r[j].to_id == t && r[j].kind == k) by {
            if r[j].from_id == f && r[j].to_id == t && r[j].kind == k {
                assert(has_edge(edges, f, t, k));
            }
        }
    }
}

} // verus!
