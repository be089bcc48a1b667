//! The store: an append-only pair of record logs as the source of truth,
//! and the derived in-memory index the queries run over. Every operation
//! keeps the index equal to what replaying the logs yields.

use vstd::prelude::*;

use crate::codec::{ser_edge, ser_item, serialize_edge, serialize_item};
use crate::graph::{acyclic, reaches, reaches_exec};
use crate::model::{
    apply_edge, blocked_items, blocked_via, dec_edge, dec_item, decoded_edges, decoded_items,
    edge_index, filtered_items, find_item, has_blocker, has_edge, has_item, insert_sorted,
    is_blocked_item, is_ready, item_index, key_le, lemma_remove_edge_ok, lemma_replay_edges_push,
    lemma_replay_items_push, lemma_upsert_edge_ok, lemma_upsert_item_unique, lemma_validate_new,
    new_item_view, nonclosed, passes_filter, ready_items, remove_edge_triple, replay_edges,
    replay_items, sort_items, unique_ids, unique_triples, upsert_edge, upsert_item, validate_new,
    StoreView,
};
use crate::text::str_eq;
use crate::types::{
    Edge, EdgeKind, EdgeView, Item, ItemView, Status, ValidationError, ValidationErrorView,
};

verus! {

/// Why a store operation was refused.
#[derive(Debug, PartialEq)]
pub enum StoreError {
    /// No item with the given id.
    ItemNotFound(String),
    /// An edge may not connect an item to itself.
    SelfReferentialEdge,
    /// Adding this edge would close a cycle in the blocking subgraph.
    CycleDetected,
    /// The lifecycle does not allow this status change.
    InvalidStatusTransition { from: Status, to: Status },
    /// A field failed a data-model constraint.
    Validation(ValidationError),
}

/// The store: the derived index, the line counts consumed from each log,
/// the ghost history of decoded records, and the serialized lines that
/// await a durable append.
pub struct Store {
    items: Vec<Item>,
    edges: Vec<Edge>,
    items_lines: u64,
    edges_lines: u64,
    pending: Vec<String>,
    item_log: Ghost<Seq<ItemView>>,
    edge_log: Ghost<Seq<EdgeView>>,
}

impl View for Store {
    type V = StoreView;

    closed spec fn view(&self) -> StoreView {
        StoreView {
            item_log: self.item_log@,
            edge_log: self.edge_log@,
            items: self.items.deep_view(),
            edges: self.edges.deep_view(),
            items_lines: self.items_lines as int,
            edges_lines: self.edges_lines as int,
            pending: self.pending.deep_view(),
        }
    }
}

/// The view of the labels handed to `create` and `update`.
pub open spec fn labels_view(labels: Seq<&str>) -> Seq<Seq<char>> {
    Seq::new(labels.len(), |i: int| labels[i]@)
}

/// The view of an optional text argument.
pub open spec fn opt_view(o: Option<&str>) -> Option<Seq<char>> {
    match o {
        Some(s) => Some(s@),
        None => None,
    }
}

fn find_item_idx(items: &Vec<Item>, id: &str) -> (r: Option<usize>)
    requires
        unique_ids(items.deep_view()),
    ensures
        match r {
            Some(i) => i < items@.len() && has_item(items.deep_view(), id@) && item_index(
                items.deep_view(),
                id@,
            ) == i as int && items.deep_view()[i as int].id == id@,
            None => !has_item(items.deep_view(), id@),
        },
{
    let dv = Ghost(items.deep_view());
    let mut i: usize = 0;
    while i < items.len()
        invariant
            dv@ == items.deep_view(),
            unique_ids(dv@),
            i <= items@.len(),
            items@.len() == dv@.len(),
            forall|j: int| 0 <= j < i ==> dv@[j].id != id@,
        decreases items@.len() - i,
    {
        if str_eq(items[i].id.as_str(), id) {
            proof {
                assert(dv@[i as int].id == id@);
                assert(has_item(dv@, id@));
                let j = item_index(dv@, id@);
                assert(0 <= j < dv@.len() && dv@[j].id == id@);
                if j != i {
                    assert(unique_ids(dv@));
                    assert(false);
                }
            }
            return Some(i);
        }
        i = i + 1;
    }
    proof {
        if has_item(dv@, id@) {
            let j = item_index(dv@, id@);
            assert(dv@[j].id != id@);
        }
    }
    None
}

fn find_edge_idx(edges: &Vec<Edge>, f: &str, t: &str, k: EdgeKind) -> (r: Option<usize>)
    requires
        unique_triples(edges.deep_view()),
    ensures
        match r {
            Some(i) => i < edges@.len() && has_edge(edges.deep_view(), f@, t@, k) && edge_index(
                edges.deep_view(),
                f@,
                t@,
                k,
            ) == i as int && edges.deep_view()[i as int].from_id == f@
                && edges.deep_view()[i as int].to_id == t@ && edges.deep_view()[i as int].kind == k,
            None => !has_edge(edges.deep_view(), f@, t@, k),
        },
{
    let dv = Ghost(edges.deep_view());
    let mut i: usize = 0;
    while i < edges.len()
        invariant
            dv@ == edges.deep_view(),
            unique_triples(dv@),
            i <= edges@.len(),
            edges@.len() == dv@.len(),
            forall|j: int|
                0 <= j < i ==> !((#[trigger] dv@[j]).from_id == f@ && dv@[j].to_id == t@
                    && dv@[j].kind == k),
        decreases edges@.len() - i,
    {
        let e = &edges[i];
        if e.kind == k && str_eq(e.from_id.as_str(), f) && str_eq(e.to_id.as_str(), t) {
            proof {
                assert(dv@[i as int].from_id == f@ && dv@[i as int].to_id == t@ && dv@[
                    i as int].kind == k);
                assert(has_edge(dv@, f@, t@, k));
                let j = edge_index(dv@, f@, t@, k);
                if j != i {
                    assert(unique_triples(dv@));
                    assert(false);
                }
            }
            return Some(i);
        }
        i = i + 1;
    }
    proof {
        if has_edge(dv@, f@, t@, k) {
            let j = edge_index(dv@, f@, t@, k);
            assert(!(dv@[j].from_id == f@ && dv@[j].to_id == t@ && dv@[j].kind == k));
        }
    }
    None
}

fn labels_vec(labels: &[&str]) -> (r: Vec<String>)
    ensures
        r.deep_view() == labels_view(labels@),
{
    let mut r: Vec<String> = Vec::new();
    let mut i: usize = 0;
    while i < labels.len()
        invariant
            i <= labels@.len(),
            r@.len() == i,
            forall|j: int| 0 <= j < i ==> #[trigger] r@[j]@ == labels@[j]@,
        decreases labels@.len() - i,
    {
        r.push(labels[i].to_owned());
        i = i + 1;
    }
    proof {
        assert(r.deep_view() =~= labels_view(labels@));
    }
    r
}

fn opt_string(o: Option<&str>) -> (r: Option<String>)
    ensures
        crate::codec::osv(r) == opt_view(o),
{
    match o {
        Some(s) => Some(s.to_owned()),
        None => None,
    }
}

impl Store {
    /// An empty store: nothing replayed, nothing pending.
    pub fn new() -> (r: Store)
        ensures
            r@.wf(),
            r@.dag(),
            r@.item_log == Seq::<ItemView>::empty(),
            r@.edge_log == Seq::<EdgeView>::empty(),
            r@.items == Seq::<ItemView>::empty(),
            r@.edges == Seq::<EdgeView>::empty(),
            r@.items_lines == 0,
            r@.edges_lines == 0,
            r@.pending == Seq::<Seq<char>>::empty(),
    {
        let r = Store {
            items: Vec::new(),
            edges: Vec::new(),
            items_lines: 0,
            edges_lines: 0,
            pending: Vec::new(),
            item_log: Ghost(Seq::empty()),
            edge_log: Ghost(Seq::empty()),
        };
        proof {
            assert(r@.items =~= Seq::<ItemView>::empty());
            assert(r@.edges =~= Seq::<EdgeView>::empty());
            assert(r@.pending =~= Seq::<Seq<char>>::empty());
            assert forall|p: Seq<Seq<char>>|
                #[trigger] crate::graph::is_path(r@.edges, p) && p.len() >= 2 implies p.first()
                != p.last() by {
                assert(!crate::graph::blocking_edge(r@.edges, p[0], p[1]));
            }
        }
        r
    }

    /// Get an item by id.
    pub fn get(&self, id: &str) -> (r: Option<Item>)
        requires
            self@.wf(),
        ensures
            match r {
                Some(it) => find_item(self@.items, id@) == Some(it@),
                None => find_item(self@.items, id@) is None,
            },
    {
        match find_item_idx(&self.items, id) {
            Some(i) => Some(self.items[i].clone()),
            None => None,
        }
    }

    /// The number of log lines this store has consumed or produced, per
    /// log: the line-count meta that signals divergence.
    pub fn line_counts(&self) -> (r: (u64, u64))
        ensures
            r.0 as int == self@.items_lines,
            r.1 as int == self@.edges_lines,
    {
        (self.items_lines, self.edges_lines)
    }

    /// Whether the cache diverges from logs with the given line counts:
    /// a mismatch of either count calls for a rebuild.
    pub fn needs_rebuild(&self, items_lines: u64, edges_lines: u64) -> (r: bool)
        ensures
            r == (self@.items_lines != items_lines as int || self@.edges_lines
                != edges_lines as int),
    {
        self.items_lines != items_lines || self.edges_lines != edges_lines
    }

    /// Take the record lines that await a durable append, in the order
    /// they were produced.
    pub fn take_pending(&mut self) -> (r: Vec<String>)
        ensures
            r.deep_view() == old(self)@.pending,
            final(self)@ == (StoreView { pending: Seq::<Seq<char>>::empty(), ..old(self)@ }),
    {
        let mut out: Vec<String> = Vec::new();
        core::mem::swap(&mut out, &mut self.pending);
        proof {
            assert(self@.pending =~= Seq::<Seq<char>>::empty());
            assert(self@ =~= (StoreView { pending: Seq::<Seq<char>>::empty(), ..old(self)@ }));
        }
        out
    }

    /// Append one item record: the log grows, the cache takes the record
    /// as the newest state of its id, and its line awaits persistence.
    fn append_item_rec(&mut self, it: Item)
        requires
            old(self)@.wf(),
            old(self)@.items_lines < u64::MAX,
        ensures
            final(self)@.wf(),
            final(self)@ == (StoreView {
                item_log: old(self)@.item_log.push(it@),
                items: upsert_item(old(self)@.items, it@),
                items_lines: old(self)@.items_lines + 1,
                pending: old(self)@.pending.push(ser_item(it@)),
                ..old(self)@
            }),
            final(self)@.edges == old(self)@.edges,
    {
        let ghost pre = self@;
        let line = serialize_item(&it);
        let ghost itv = it@;
        proof {
            self.item_log@ = self.item_log@.push(itv);
        }
        match find_item_idx(&self.items, it.id.as_str()) {
            Some(i) => {
                self.items[i] = it;
                proof {
                    assert(self.items.deep_view() =~= pre.items.update(i as int, itv));
                }
            },
            None => {
                self.items.push(it);
                proof {
                    assert(self.items.deep_view() =~= pre.items.push(itv));
                }
            },
        }
        self.items_lines = self.items_lines + 1;
        self.pending.push(line);
        proof {
            lemma_replay_items_push(pre.item_log, itv);
            lemma_upsert_item_unique(pre.items, itv);
            assert(self.pending.deep_view() =~= pre.pending.push(ser_item(itv)));
            assert(self@ =~= (StoreView {
                item_log: pre.item_log.push(itv),
                items: upsert_item(pre.items, itv),
                items_lines: pre.items_lines + 1,
                pending: pre.pending.push(ser_item(itv)),
                ..pre
            }));
        }
    }

    /// Create a new item with the given fields, stamped with the given id
    /// and instant. The record is validated before anything is appended.
    pub fn create_with(
        &mut self,
        id: String,
        now: String,
        title: &str,
        priority: u8,
        labels: &[&str],
        description: Option<&str>,
    ) -> (r: Result<Item, StoreError>)
        requires
            old(self)@.wf(),
            old(self)@.items_lines < u64::MAX,
        ensures
            final(self)@.wf(),
            old(self)@.dag() ==> final(self)@.dag(),
            match r {
                Ok(item) => validate_new(title@, priority, labels_view(labels@)) is Ok && item@
                    == new_item_view(
                    id@,
                    title@,
                    opt_view(description),
                    priority,
                    labels_view(labels@),
                    now@,
                ) && final(self)@ == (StoreView {
                    item_log: old(self)@.item_log.push(item@),
                    items: upsert_item(old(self)@.items, item@),
                    items_lines: old(self)@.items_lines + 1,
                    pending: old(self)@.pending.push(ser_item(item@)),
                    ..old(self)@
                }),
                Err(e) => final(self)@ == old(self)@ && (e matches StoreError::Validation(ve)
                    && validate_new(title@, priority, labels_view(labels@)) == Err::<
                    (),
                    ValidationErrorView,
                >(ve@)),
            },
    {
        let item = Item {
            id: id,
            title: title.to_owned(),
            description: opt_string(description),
            status: Status::Open,
            priority: priority,
            labels: labels_vec(labels),
            created_at: now.clone(),
            updated_at: now,
            closed_at: None,
            close_reason: None,
        };
        proof {
            assert(item@ =~= new_item_view(
                item.id@,
                title@,
                opt_view(description),
                priority,
                labels_view(labels@),
                item.created_at@,
            ));
            lemma_validate_new(
                item.id@,
                title@,
                opt_view(description),
                priority,
                labels_view(labels@),
                item.created_at@,
            );
        }
        if let Err(e) = item.validate() {
            return Err(StoreError::Validation(e));
        }
        let out = item.clone();
        self.append_item_rec(item);
        Ok(out)
    }

    /// Create a new item: a fresh identifier and the current instant are
    /// drawn, the record is validated, appended and returned.
    pub fn create(
        &mut self,
        title: &str,
        priority: u8,
        labels: &[&str],
        description: Option<&str>,
    ) -> (r: Result<Item, StoreError>)
        requires
            old(self)@.wf(),
            old(self)@.items_lines < u64::MAX,
        ensures
            final(self)@.wf(),
            old(self)@.dag() ==> final(self)@.dag(),
            match r {
                Ok(item) => validate_new(title@, priority, labels_view(labels@)) is Ok
                    && crate::id::id_format(item@.id) && item@.created_at == item@.updated_at
                    && item@ == new_item_view(
                    item@.id,
                    title@,
                    opt_view(description),
                    priority,
                    labels_view(labels@),
                    item@.created_at,
                ) && final(self)@ == (StoreView {
                    item_log: old(self)@.item_log.push(item@),
                    items: upsert_item(old(self)@.items, item@),
                    items_lines: old(self)@.items_lines + 1,
                    pending: old(self)@.pending.push(ser_item(item@)),
                    ..old(self)@
                }),
                Err(e) => final(self)@ == old(self)@ && (e matches StoreError::Validation(ve)
                    && validate_new(title@, priority, labels_view(labels@)) == Err::<
                    (),
                    ValidationErrorView,
                >(ve@)),
            },
    {
        let id = crate::id::generate_id(title);
        let now = crate::clock::now_rfc3339();
        self.create_with(id, now, title, priority, labels, description)
    }
}


/// The view of the tri-state description argument: untouched, set to a
/// value, or cleared.
pub open spec fn oov(o: Option<Option<&str>>) -> Option<Option<Seq<char>>> {
    match o {
        Some(Some(s)) => Some(Some(s@)),
        Some(None) => Some(None),
        None => None,
    }
}

/// The view of the optional label-list argument.
pub open spec fn olv(o: Option<&[&str]>) -> Option<Seq<Seq<char>>> {
    match o {
        Some(ls) => Some(labels_view(ls@)),
        None => None,
    }
}

/// An update merged over an existing record: given fields replace, absent
/// fields stay; the lifecycle fields are untouched and the record is
/// restamped.
pub open spec fn merged_item(
    ex: ItemView,
    title: Option<Seq<char>>,
    description: Option<Option<Seq<char>>>,
    priority: Option<u8>,
    labels: Option<Seq<Seq<char>>>,
    now: Seq<char>,
) -> ItemView {
    ItemView {
        title: match title {
            Some(t) => t,
            None => ex.title,
        },
        description: match description {
            Some(d) => d,
            None => ex.description,
        },
        priority: match priority {
            Some(p) => p,
            None => ex.priority,
        },
        labels: match labels {
            Some(l) => l,
            None => ex.labels,
        },
        updated_at: now,
        ..ex
    }
}

/// A status change: the record is restamped; moving to Closed stamps the
/// closure instant if there was none, and leaving Closed clears the
/// closure fields, keeping closure coherent with the status.
pub open spec fn restatused_item(ex: ItemView, st: Status, now: Seq<char>) -> ItemView {
    ItemView {
        status: st,
        updated_at: now,
        closed_at: if st == Status::Closed {
            if ex.status == Status::Closed {
                ex.closed_at
            } else {
                Some(now)
            }
        } else {
            None
        },
        close_reason: if st == Status::Closed {
            ex.close_reason
        } else {
            None
        },
        ..ex
    }
}

/// A closure: Closed, restamped, with the closure instant and the given
/// reason.
pub open spec fn closed_item(ex: ItemView, reason: Option<Seq<char>>, now: Seq<char>) -> ItemView {
    ItemView {
        status: Status::Closed,
        updated_at: now,
        closed_at: Some(now),
        close_reason: reason,
        ..ex
    }
}

/// The store after appending one item record.
pub open spec fn with_item_rec(s: StoreView, it: ItemView) -> StoreView {
    StoreView {
        item_log: s.item_log.push(it),
        items: upsert_item(s.items, it),
        items_lines: s.items_lines + 1,
        pending: s.pending.push(ser_item(it)),
        ..s
    }
}

/// The store after appending a sequence of item records, in order.
pub open spec fn with_items_rec(s: StoreView, vs: Seq<ItemView>) -> StoreView
    decreases vs.len(),
{
    if vs.len() == 0 {
        s
    } else {
        with_item_rec(with_items_rec(s, vs.drop_last()), vs.last())
    }
}

/// The store after appending one edge record.
pub open spec fn with_edge_rec(s: StoreView, e: EdgeView) -> StoreView {
    StoreView {
        edge_log: s.edge_log.push(e),
        edges: apply_edge(s.edges, e),
        edges_lines: s.edges_lines + 1,
        pending: s.pending.push(ser_edge(e)),
        ..s
    }
}

impl Store {
    /// Update an item's fields at the given instant: present arguments
    /// replace, absent ones stay, the merged record is validated and
    /// appended. The lifecycle fields never change here.
    pub fn update_with(
        &mut self,
        now: String,
        id: &str,
        title: Option<&str>,
        description: Option<Option<&str>>,
        priority: Option<u8>,
        labels: Option<&[&str]>,
    ) -> (r: Result<Item, StoreError>)
        requires
            old(self)@.wf(),
            old(self)@.items_lines < u64::MAX,
        ensures
            final(self)@.wf(),
            old(self)@.dag() ==> final(self)@.dag(),
            match r {
                Ok(item) => has_item(old(self)@.items, id@) && item@ == merged_item(
                    find_item(old(self)@.items, id@)->0,
                    opt_view(title),
                    oov(description),
                    priority,
                    olv(labels),
                    now@,
                ) && crate::types::spec_validate(item@) is Ok && final(self)@ == with_item_rec(
                    old(self)@,
                    item@,
                ),
                Err(e) => final(self)@ == old(self)@ && match e {
                    StoreError::ItemNotFound(s) => s@ == id@ && !has_item(old(self)@.items, id@),
                    StoreError::Validation(ve) => has_item(old(self)@.items, id@)
                        && crate::types::spec_validate(
                        merged_item(
                            find_item(old(self)@.items, id@)->0,
                            opt_view(title),
                            oov(description),
                            priority,
                            olv(labels),
                            now@,
                        ),
                    ) == Err::<(), ValidationErrorView>(ve@),
                    _ => false,
                },
            },
    {
        let i = match find_item_idx(&self.items, id) {
            Some(i) => i,
            None => {
                return Err(StoreError::ItemNotFound(id.to_owned()));
            },
        };
        let ex = self.items[i].clone();
        let updated = Item {
            id: ex.id,
            title: match title {
                Some(t) => t.to_owned(),
                None => ex.title,
            },
            description: match description {
                Some(d) => opt_string(d),
                None => ex.description,
            },
            status: ex.status,
            priority: match priority {
                Some(p) => p,
                None => ex.priority,
            },
            labels: match labels {
                Some(l) => labels_vec(l),
                None => ex.labels,
            },
            created_at: ex.created_at,
            updated_at: now,
            closed_at: ex.closed_at,
            close_reason: ex.close_reason,
        };
        proof {
            assert(updated@ =~= merged_item(
                find_item(self@.items, id@)->0,
                opt_view(title),
                oov(description),
                priority,
                olv(labels),
                updated.updated_at@,
            ));
        }
        if let Err(e) = updated.validate() {
            return Err(StoreError::Validation(e));
        }
        let out = updated.clone();
        self.append_item_rec(updated);
        proof {
            assert(final(self)@ =~= with_item_rec(old(self)@, out@));
        }
        Ok(out)
    }

    /// Update an item's fields, stamped with the current instant.
    pub fn update(
        &mut self,
        id: &str,
        title: Option<&str>,
        description: Option<Option<&str>>,
        priority: Option<u8>,
        labels: Option<&[&str]>,
    ) -> (r: Result<Item, StoreError>)
        requires
            old(self)@.wf(),
            old(self)@.items_lines < u64::MAX,
        ensures
            final(self)@.wf(),
            old(self)@.dag() ==> final(self)@.dag(),
            match r {
                Ok(item) => has_item(old(self)@.items, id@) && item@ == merged_item(
                    find_item(old(self)@.items, id@)->0,
                    opt_view(title),
                    oov(description),
                    priority,
                    olv(labels),
                    item@.updated_at,
                ) && crate::types::spec_validate(item@) is Ok && final(self)@ == with_item_rec(
                    old(self)@,
                    item@,
                ),
                Err(e) => final(self)@ == old(self)@ && match e {
                    StoreError::ItemNotFound(s) => s@ == id@ && !has_item(old(self)@.items, id@),
                    StoreError::Validation(ve) => has_item(old(self)@.items, id@) && exists|
                        now: Seq<char>,
                    | crate::types::spec_validate(
                        merged_item(
                            find_item(old(self)@.items, id@)->0,
                            opt_view(title),
                            oov(description),
                            priority,
                            olv(labels),
                            now,
                        ),
                    ) == Err::<(), ValidationErrorView>(ve@),
                    _ => false,
                },
            },
    {
        let now = crate::clock::now_rfc3339();
        let ghost nv = now@;
        let r = self.update_with(now, id, title, description, priority, labels);
        proof {
            match r {
                Err(StoreError::Validation(ref ve)) => {
                    assert(crate::types::spec_validate(
                        merged_item(
                            find_item(old(self)@.items, id@)->0,
                            opt_view(title),
                            oov(description),
                            priority,
                            olv(labels),
                            nv,
                        ),
                    ) == Err::<(), ValidationErrorView>(ve@));
                },
                _ => {},
            }
        }
        r
    }

    /// Change an item's status at the given instant, when the lifecycle
    /// allows the transition. Closure stays coherent with the status.
    pub fn set_status_with(&mut self, now: String, id: &str, status: Status) -> (r: Result<
        Item,
        StoreError,
    >)
        requires
            old(self)@.wf(),
            old(self)@.items_lines < u64::MAX,
        ensures
            final(self)@.wf(),
            old(self)@.dag() ==> final(self)@.dag(),
            match r {
                Ok(item) => has_item(old(self)@.items, id@) && find_item(
                    old(self)@.items,
                    id@,
                )->0.status.spec_can_transition_to(status) && item@ == restatused_item(
                    find_item(old(self)@.items, id@)->0,
                    status,
                    now@,
                ) && final(self)@ == with_item_rec(old(self)@, item@),
                Err(e) => final(self)@ == old(self)@ && match e {
                    StoreError::ItemNotFound(s) => s@ == id@ && !has_item(old(self)@.items, id@),
                    StoreError::InvalidStatusTransition { from, to } => has_item(
                        old(self)@.items,
                        id@,
                    ) && from == find_item(old(self)@.items, id@)->0.status && to == status
                        && !from.spec_can_transition_to(to),
                    _ => false,
                },
            },
    {
        let i = match find_item_idx(&self.items, id) {
            Some(i) => i,
            None => {
                return Err(StoreError::ItemNotFound(id.to_owned()));
            },
        };
        let ex = self.items[i].clone();
        if !ex.status.can_transition_to(&status) {
            return Err(StoreError::InvalidStatusTransition { from: ex.status, to: status });
        }
        let is_closed = matches!(status, Status::Closed);
        let was_closed = matches!(ex.status, Status::Closed);
        let updated = Item {
            id: ex.id,
            title: ex.title,
            description: ex.description,
            status: status,
            priority: ex.priority,
            labels: ex.labels,
            created_at: ex.created_at,
            updated_at: now.clone(),
            closed_at: if is_closed {
                if was_closed {
                    ex.closed_at
                } else {
                    Some(now)
                }
            } else {
                None
            },
            close_reason: if is_closed {
                ex.close_reason
            } else {
                None
            },
        };
        proof {
            assert(updated@ =~= restatused_item(
                find_item(self@.items, id@)->0,
                status,
                updated.updated_at@,
            ));
        }
        let out = updated.clone();
        self.append_item_rec(updated);
        proof {
            assert(final(self)@ =~= with_item_rec(old(self)@, out@));
        }
        Ok(out)
    }

    /// Change an item's status, stamped with the current instant.
    pub fn set_status(&mut self, id: &str, status: Status) -> (r: Result<Item, StoreError>)
        requires
            old(self)@.wf(),
            old(self)@.items_lines < u64::MAX,
        ensures
            final(self)@.wf(),
            old(self)@.dag() ==> final(self)@.dag(),
            match r {
                Ok(item) => has_item(old(self)@.items, id@) && find_item(
                    old(self)@.items,
                    id@,
                )->0.status.spec_can_transition_to(status) && item@ == restatused_item(
                    find_item(old(self)@.items, id@)->0,
                    status,
                    item@.updated_at,
                ) && final(self)@ == with_item_rec(old(self)@, item@),
                Err(e) => final(self)@ == old(self)@ && match e {
                    StoreError::ItemNotFound(s) => s@ == id@ && !has_item(old(self)@.items, id@),
                    StoreError::InvalidStatusTransition { from, to } => has_item(
                        old(self)@.items,
                        id@,
                    ) && from == find_item(old(self)@.items, id@)->0.status && to == status
                        && !from.spec_can_transition_to(to),
                    _ => false,
                },
            },
    {
        let now = crate::clock::now_rfc3339();
        self.set_status_with(now, id, status)
    }

    /// Close an item at the given instant, recording the reason. Any
    /// status may move to Closed, so only an unknown id is refused.
    pub fn close_with(&mut self, now: String, id: &str, reason: Option<&str>) -> (r: Result<
        Item,
        StoreError,
    >)
        requires
            old(self)@.wf(),
            old(self)@.items_lines < u64::MAX,
        ensures
            final(self)@.wf(),
            old(self)@.dag() ==> final(self)@.dag(),
            match r {
                Ok(item) => has_item(old(self)@.items, id@) && item@ == closed_item(
                    find_item(old(self)@.items, id@)->0,
                    opt_view(reason),
                    now@,
                ) && final(self)@ == with_item_rec(old(self)@, item@),
                Err(e) => final(self)@ == old(self)@ && (e matches StoreError::ItemNotFound(s)
                    && s@ == id@ && !has_item(old(self)@.items, id@)),
            },
    {
        let i = match find_item_idx(&self.items, id) {
            Some(i) => i,
            None => {
                return Err(StoreError::ItemNotFound(id.to_owned()));
            },
        };
        let ex = self.items[i].clone();
        // The lifecycle lets every status move to Closed (a Closed item is
        // re-closed as a no-op change), so this guard can never fire; it
        // mirrors the check `set_status` makes, and the verifier shows the
        // branch dead.
        if !ex.status.can_transition_to(&Status::Closed) {
            proof {
                assert(false);
            }
            return Err(StoreError::InvalidStatusTransition { from: ex.status, to: Status::Closed });
        }
        let updated = Item {
            id: ex.id,
            title: ex.title,
            description: ex.description,
            status: Status::Closed,
            priority: ex.priority,
            labels: ex.labels,
            created_at: ex.created_at,
            updated_at: now.clone(),
            closed_at: Some(now),
            close_reason: opt_string(reason),
        };
        proof {
            assert(updated@ =~= closed_item(
                find_item(self@.items, id@)->0,
                opt_view(reason),
                updated.updated_at@,
            ));
        }
        let out = updated.clone();
        self.append_item_rec(updated);
        proof {
            assert(final(self)@ =~= with_item_rec(old(self)@, out@));
        }
        Ok(out)
    }

    /// Close an item with an optional reason, stamped with the current
    /// instant.
    pub fn close(&mut self, id: &str, reason: Option<&str>) -> (r: Result<Item, StoreError>)
        requires
            old(self)@.wf(),
            old(self)@.items_lines < u64::MAX,
        ensures
            final(self)@.wf(),
            old(self)@.dag() ==> final(self)@.dag(),
            match r {
                Ok(item) => has_item(old(self)@.items, id@) && item@ == closed_item(
                    find_item(old(self)@.items, id@)->0,
                    opt_view(reason),
                    item@.updated_at,
                ) && final(self)@ == with_item_rec(old(self)@, item@),
                Err(e) => final(self)@ == old(self)@ && (e matches StoreError::ItemNotFound(s)
                    && s@ == id@ && !has_item(old(self)@.items, id@)),
            },
    {
        let now = crate::clock::now_rfc3339();
        self.close_with(now, id, reason)
    }
}


/// Removing an edge cannot create a blocking pair.
proof fn lemma_remove_dag(edges: Seq<EdgeView>, f: Seq<char>, t: Seq<char>, k: EdgeKind)
    requires
        acyclic(edges),
    ensures
        acyclic(remove_edge_triple(edges, f, t, k)),
{
    let r = remove_edge_triple(edges, f, t, k);
    if has_edge(edges, f, t, k) {
        let i = edge_index(edges, f, t, k);
        assert(0 <= i < edges.len());
        assert forall|kk: int| 0 <= kk < r.len() implies exists|j: int|
            0 <= j < edges.len() && edges[j].from_id == (#[trigger] r[kk]).from_id && edges[j].to_id
                == r[kk].to_id && edges[j].kind == r[kk].kind by {
            if kk < i {
                assert(edges[kk] == r[kk]);
            } else {
                assert(edges[kk + 1] == r[kk]);
            }
        }
        crate::graph::lemma_blocking_subrelation(r, edges);
        crate::graph::lemma_acyclic_transfer(r, edges);
    }
}

/// Replacing an edge by one with the same triple keeps the blocking
/// subgraph acyclic.
proof fn lemma_upsert_same_dag(edges: Seq<EdgeView>, e: EdgeView)
    requires
        acyclic(edges),
        has_edge(edges, e.from_id, e.to_id, e.kind),
    ensures
        acyclic(upsert_edge(edges, e)),
{
    let i = edge_index(edges, e.from_id, e.to_id, e.kind);
    let r = upsert_edge(edges, e);
    assert(0 <= i < edges.len());
    assert(r == edges.update(i, e));
    assert forall|kk: int| 0 <= kk < r.len() implies exists|j: int|
        0 <= j < edges.len() && edges[j].from_id == (#[trigger] r[kk]).from_id && edges[j].to_id
            == r[kk].to_id && edges[j].kind == r[kk].kind by {
        if kk == i {
            assert(edges[i].from_id == r[kk].from_id && edges[i].to_id == r[kk].to_id
                && edges[i].kind == r[kk].kind);
        } else {
            assert(edges[kk] == r[kk]);
        }
    }
    crate::graph::lemma_blocking_subrelation(r, edges);
    crate::graph::lemma_acyclic_transfer(r, edges);
}

impl Store {
    /// Append one edge record: the log grows, the cache applies the
    /// record, and its line awaits persistence.
    fn append_edge_rec(&mut self, e: Edge)
        requires
            old(self)@.wf(),
            old(self)@.edges_lines < u64::MAX,
        ensures
            final(self)@.wf(),
            final(self)@ == with_edge_rec(old(self)@, e@),
            final(self)@.items == old(self)@.items,
    {
        let ghost pre = self@;
        let line = serialize_edge(&e);
        let ghost ev = e@;
        proof {
            self.edge_log@ = self.edge_log@.push(ev);
        }
        if e.deleted {
            match find_edge_idx(&self.edges, e.from_id.as_str(), e.to_id.as_str(), e.kind) {
                Some(i) => {
                    self.edges.remove(i);
                    proof {
                        assert(self.edges.deep_view() =~= pre.edges.remove(i as int));
                        assert(self.edges.deep_view() =~= apply_edge(pre.edges, ev));
                    }
                },
                None => {
                    proof {
                        assert(self.edges.deep_view() =~= apply_edge(pre.edges, ev));
                    }
                },
            }
            proof {
                lemma_remove_edge_ok(pre.edges, ev.from_id, ev.to_id, ev.kind);
            }
        } else {
            match find_edge_idx(&self.edges, e.from_id.as_str(), e.to_id.as_str(), e.kind) {
                Some(i) => {
                    self.edges[i] = e;
                    proof {
                        assert(self.edges.deep_view() =~= pre.edges.update(i as int, ev));
                        assert(self.edges.deep_view() =~= apply_edge(pre.edges, ev));
                    }
                },
                None => {
                    self.edges.push(e);
                    proof {
                        assert(self.edges.deep_view() =~= pre.edges.push(ev));
                        assert(self.edges.deep_view() =~= apply_edge(pre.edges, ev));
                    }
                },
            }
            proof {
                lemma_upsert_edge_ok(pre.edges, ev);
            }
        }
        self.edges_lines = self.edges_lines + 1;
        self.pending.push(line);
        proof {
            lemma_replay_edges_push(pre.edge_log, ev);
            assert(self.pending.deep_view() =~= pre.pending.push(ser_edge(ev)));
            assert(self@ =~= with_edge_rec(pre, ev));
        }
    }

    /// Whether a live edge with this triple stands in the cache.
    pub fn edge_exists(&self, from_id: &str, to_id: &str, kind: EdgeKind) -> (r: bool)
        requires
            self@.wf(),
        ensures
            r == has_edge(self@.edges, from_id@, to_id@, kind),
    {
        find_edge_idx(&self.edges, from_id, to_id, kind).is_some()
    }

    /// Add an edge at the given instant. Both endpoints must exist and
    /// differ; re-adding a present triple succeeds without appending; a
    /// blocking edge is refused when its target already reaches its
    /// source, so the blocking subgraph stays acyclic.
    pub fn add_edge_with(&mut self, now: String, from_id: &str, to_id: &str, kind: EdgeKind) -> (r:
        Result<Edge, StoreError>)
        requires
            old(self)@.wf(),
            old(self)@.edges_lines < u64::MAX,
        ensures
            final(self)@.wf(),
            old(self)@.dag() ==> final(self)@.dag(),
            match r {
                Ok(edge) => from_id@ != to_id@ && has_item(old(self)@.items, from_id@) && has_item(
                    old(self)@.items,
                    to_id@,
                ) && edge@ == (EdgeView {
                    from_id: from_id@,
                    to_id: to_id@,
                    kind: kind,
                    created_at: now@,
                    deleted: false,
                }) && if has_edge(old(self)@.edges, from_id@, to_id@, kind) {
                    final(self)@ == old(self)@
                } else {
                    (kind.spec_is_blocking() ==> !reaches(old(self)@.edges, to_id@, from_id@))
                        && final(self)@ == with_edge_rec(old(self)@, edge@)
                },
                Err(e) => final(self)@ == old(self)@ && match e {
                    StoreError::SelfReferentialEdge => from_id@ == to_id@,
                    StoreError::ItemNotFound(s) => from_id@ != to_id@ && ((s@ == from_id@
                        && !has_item(old(self)@.items, from_id@)) || (s@ == to_id@ && has_item(
                        old(self)@.items,
                        from_id@,
                    ) && !has_item(old(self)@.items, to_id@))),
                    StoreError::CycleDetected => from_id@ != to_id@ && has_item(
                        old(self)@.items,
                        from_id@,
                    ) && has_item(old(self)@.items, to_id@) && !has_edge(
                        old(self)@.edges,
                        from_id@,
                        to_id@,
                        kind,
                    ) && kind.spec_is_blocking() && reaches(old(self)@.edges, to_id@, from_id@),
                    _ => false,
                },
            },
    {
        if str_eq(from_id, to_id) {
            return Err(StoreError::SelfReferentialEdge);
        }
        if find_item_idx(&self.items, from_id).is_none() {
            return Err(StoreError::ItemNotFound(from_id.to_owned()));
        }
        if find_item_idx(&self.items, to_id).is_none() {
            return Err(StoreError::ItemNotFound(to_id.to_owned()));
        }
        let edge = Edge {
            from_id: from_id.to_owned(),
            to_id: to_id.to_owned(),
            kind: kind,
            created_at: now,
            deleted: false,
        };
        if self.edge_exists(from_id, to_id, kind) {
            return Ok(edge);
        }
        if edge.kind.is_blocking() && reaches_exec(&self.edges, to_id, from_id) {
            return Err(StoreError::CycleDetected);
        }
        let out = edge.clone();
        let ghost pre = self@;
        self.append_edge_rec(edge);
        proof {
            if pre.dag() {
                assert(!has_edge(pre.edges, out@.from_id, out@.to_id, out@.kind));
                assert(apply_edge(pre.edges, out@) == pre.edges.push(out@));
                crate::graph::lemma_acyclic_push(pre.edges, out@);
            }
        }
        Ok(out)
    }

    /// Add an edge, stamped with the current instant.
    pub fn add_edge(&mut self, from_id: &str, to_id: &str, kind: EdgeKind) -> (r: Result<
        Edge,
        StoreError,
    >)
        requires
            old(self)@.wf(),
            old(self)@.edges_lines < u64::MAX,
        ensures
            final(self)@.wf(),
            old(self)@.dag() ==> final(self)@.dag(),
            match r {
                Ok(edge) => from_id@ != to_id@ && has_item(old(self)@.items, from_id@) && has_item(
                    old(self)@.items,
                    to_id@,
                ) && edge@ == (EdgeView {
                    from_id: from_id@,
                    to_id: to_id@,
                    kind: kind,
                    created_at: edge@.created_at,
                    deleted: false,
                }) && if has_edge(old(self)@.edges, from_id@, to_id@, kind) {
                    final(self)@ == old(self)@
                } else {
                    (kind.spec_is_blocking() ==> !reaches(old(self)@.edges, to_id@, from_id@))
                        && final(self)@ == with_edge_rec(old(self)@, edge@)
                },
                Err(e) => final(self)@ == old(self)@ && match e {
                    StoreError::SelfReferentialEdge => from_id@ == to_id@,
                    StoreError::ItemNotFound(s) => from_id@ != to_id@ && ((s@ == from_id@
                        && !has_item(old(self)@.items, from_id@)) || (s@ == to_id@ && has_item(
                        old(self)@.items,
                        from_id@,
                    ) && !has_item(old(self)@.items, to_id@))),
                    StoreError::CycleDetected => from_id@ != to_id@ && has_item(
                        old(self)@.items,
                        from_id@,
                    ) && has_item(old(self)@.items, to_id@) && !has_edge(
                        old(self)@.edges,
                        from_id@,
                        to_id@,
                        kind,
                    ) && kind.spec_is_blocking() && reaches(old(self)@.edges, to_id@, from_id@),
                    _ => false,
                },
            },
    {
        let now = crate::clock::now_rfc3339();
        self.add_edge_with(now, from_id, to_id, kind)
    }

    /// Remove an edge at the given instant: a tombstone record is always
    /// appended, and the triple leaves the cache.
    pub fn remove_edge_with(&mut self, now: String, from_id: &str, to_id: &str, kind: EdgeKind)
        requires
            old(self)@.wf(),
            old(self)@.edges_lines < u64::MAX,
        ensures
            final(self)@.wf(),
            old(self)@.dag() ==> final(self)@.dag(),
            final(self)@ == with_edge_rec(
                old(self)@,
                EdgeView {
                    from_id: from_id@,
                    to_id: to_id@,
                    kind: kind,
                    created_at: now@,
                    deleted: true,
                },
            ),
            !has_edge(final(self)@.edges, from_id@, to_id@, kind),
    {
        let edge = Edge {
            from_id: from_id.to_owned(),
            to_id: to_id.to_owned(),
            kind: kind,
            created_at: now,
            deleted: true,
        };
        let ghost pre = self@;
        let ghost ev = edge@;
        self.append_edge_rec(edge);
        proof {
            lemma_remove_edge_ok(pre.edges, ev.from_id, ev.to_id, ev.kind);
            if pre.dag() {
                lemma_remove_dag(pre.edges, ev.from_id, ev.to_id, ev.kind);
            }
        }
    }

    /// Remove an edge, stamped with the current instant.
    pub fn remove_edge(&mut self, from_id: &str, to_id: &str, kind: EdgeKind)
        requires
            old(self)@.wf(),
            old(self)@.edges_lines < u64::MAX,
        ensures
            final(self)@.wf(),
            old(self)@.dag() ==> final(self)@.dag(),
            exists|now: Seq<char>| final(self)@ == with_edge_rec(
                old(self)@,
                EdgeView {
                    from_id: from_id@,
                    to_id: to_id@,
                    kind: kind,
                    created_at: now,
                    deleted: true,
                },
            ),
            !has_edge(final(self)@.edges, from_id@, to_id@, kind),
    {
        let now = crate::clock::now_rfc3339();
        let ghost nv = now@;
        self.remove_edge_with(now, from_id, to_id, kind);
        proof {
            assert(final(self)@ == with_edge_rec(
                old(self)@,
                EdgeView {
                    from_id: from_id@,
                    to_id: to_id@,
                    kind: kind,
                    created_at: nv,
                    deleted: true,
                },
            ));
        }
    }
}


fn nonclosed_exec(items: &Vec<Item>, id: &str) -> (r: bool)
    requires
        unique_ids(items.deep_view()),
    ensures
        r == nonclosed(items.deep_view(), id@),
{
    match find_item_idx(items, id) {
        Some(i) => !matches!(items[i].status, Status::Closed),
        None => false,
    }
}

fn has_blocker_exec(items: &Vec<Item>, edges: &Vec<Edge>, it: &Item) -> (r: bool)
    requires
        unique_ids(items.deep_view()),
    ensures
        r == has_blocker(items.deep_view(), edges.deep_view(), it@),
{
    let mut k: usize = 0;
    while k < edges.len()
        invariant
            unique_ids(items.deep_view()),
            k <= edges@.len(),
            edges@.len() == edges.deep_view().len(),
            forall|j: int| 0 <= j < k ==> !blocked_via(
                items.deep_view(),
                edges.deep_view(),
                it@,
                j,
            ),
        decreases edges@.len() - k,
    {
        let e = &edges[k];
        let blk = match e.kind {
            EdgeKind::Blocks => str_eq(e.from_id.as_str(), it.id.as_str()) && nonclosed_exec(
                items,
                e.to_id.as_str(),
            ),
            EdgeKind::ParentChild => str_eq(e.to_id.as_str(), it.id.as_str()) && nonclosed_exec(
                items,
                e.from_id.as_str(),
            ),
            EdgeKind::Related => false,
        };
        if blk {
            proof {
                assert(blocked_via(items.deep_view(), edges.deep_view(), it@, k as int));
            }
            return true;
        }
        proof {
            assert(!blocked_via(items.deep_view(), edges.deep_view(), it@, k as int));
        }
        k = k + 1;
    }
    proof {
        if has_blocker(items.deep_view(), edges.deep_view(), it@) {
            let j = choose|j: int| blocked_via(items.deep_view(), edges.deep_view(), it@, j);
            assert(!blocked_via(items.deep_view(), edges.deep_view(), it@, j));
        }
    }
    false
}

fn key_le_exec(a: &Item, b: &Item) -> (r: bool)
    ensures
        r == key_le(a@, b@),
{
    if a.priority < b.priority {
        true
    } else if a.priority == b.priority {
        crate::text::str_lex_le(a.created_at.as_str(), b.created_at.as_str())
    } else {
        false
    }
}

/// A stable insertion goes exactly where the first larger element stands.
proof fn lemma_insert_sorted_at(x: ItemView, s: Seq<ItemView>, j: int)
    requires
        0 <= j <= s.len(),
        forall|k: int| 0 <= k < j ==> key_le(#[trigger] s[k], x),
        j < s.len() ==> !key_le(s[j], x),
    ensures
        insert_sorted(x, s) == s.take(j) + seq![x] + s.skip(j),
    decreases s.len(),
{
    if s.len() == 0 {
        assert(s.take(j) + seq![x] + s.skip(j) =~= seq![x]);
    } else if j == 0 {
        assert(!key_le(s[0], x));
        assert(s.take(0) + seq![x] + s.skip(0) =~= seq![x] + s);
    } else {
        assert(key_le(s[0], x));
        let sd = s.drop_first();
        assert(forall|k: int| 0 <= k < j - 1 ==> key_le(#[trigger] sd[k], x));
        lemma_insert_sorted_at(x, sd, j - 1);
        assert(seq![s[0]] + (sd.take(j - 1) + seq![x] + sd.skip(j - 1)) =~= s.take(j) + seq![x]
            + s.skip(j));
    }
}

/// Sorting one more element inserts it into the sorted rest.
pub proof fn lemma_sort_push(s: Seq<ItemView>, x: ItemView)
    ensures
        sort_items(s.push(x)) == insert_sorted(x, sort_items(s)),
{
    assert(s.push(x).drop_last() =~= s);
    assert(s.push(x).last() == x);
}

pub fn insert_sorted_exec(res: &mut Vec<Item>, it: Item)
    ensures
        final(res).deep_view() == insert_sorted(it@, old(res).deep_view()),
{
    let ghost pre = res.deep_view();
    let mut j: usize = 0;
    while j < res.len() && key_le_exec(&res[j], &it)
        invariant
            pre == res.deep_view(),
            j <= res@.len(),
            res@.len() == pre.len(),
            forall|k: int| 0 <= k < j ==> key_le(#[trigger] pre[k], it@),
        decreases res@.len() - j,
    {
        j = j + 1;
    }
    proof {
        lemma_insert_sorted_at(it@, pre, j as int);
    }
    res.insert(j, it);
    proof {
        assert(res.deep_view() =~= pre.take(j as int) + seq![it@] + pre.skip(j as int));
    }
}

impl Store {
    /// The items that are ready to work on: Open, with no live blocking
    /// edge to or from a non-Closed item, ordered by ascending priority
    /// and then ascending creation instant.
    pub fn ready(&self) -> (r: Vec<Item>)
        requires
            self@.wf(),
        ensures
            r.deep_view() == sort_items(ready_items(self@.items, self@.edges, self@.items)),
    {
        let ghost dv = self@.items;
        let ghost edv = self@.edges;
        let mut res: Vec<Item> = Vec::new();
        let mut i: usize = 0;
        proof {
            assert(dv.take(0) =~= Seq::<ItemView>::empty());
        }
        while i < self.items.len()
            invariant
                self@.wf(),
                dv == self@.items,
                edv == self@.edges,
                i <= self.items@.len(),
                self.items@.len() == dv.len(),
                res.deep_view() == sort_items(ready_items(dv, edv, dv.take(i as int))),
            decreases dv.len() - i,
        {
            let it = &self.items[i];
            let ghost pre = res.deep_view();
            if matches!(it.status, Status::Open) && !has_blocker_exec(&self.items, &self.edges, it) {
                insert_sorted_exec(&mut res, it.clone());
            }
            proof {
                assert(dv.take(i + 1).drop_last() =~= dv.take(i as int));
                assert(dv.take(i + 1).last() == dv[i as int]);
                if is_ready(dv, edv, dv[i as int]) {
                    assert(ready_items(dv, edv, dv.take(i + 1)) == ready_items(
                        dv,
                        edv,
                        dv.take(i as int),
                    ).push(dv[i as int]));
                    lemma_sort_push(ready_items(dv, edv, dv.take(i as int)), dv[i as int]);
                } else {
                    assert(ready_items(dv, edv, dv.take(i + 1)) == ready_items(
                        dv,
                        edv,
                        dv.take(i as int),
                    ));
                }
            }
            i = i + 1;
        }
        proof {
            assert(dv.take(dv.len() as int) =~= dv);
        }
        res
    }

    /// The items that are blocked: Open, but kept from the ready set by
    /// some live blocking edge, in the same order as `ready`.
    pub fn blocked(&self) -> (r: Vec<Item>)
        requires
            self@.wf(),
        ensures
            r.deep_view() == sort_items(blocked_items(self@.items, self@.edges, self@.items)),
    {
        let ghost dv = self@.items;
        let ghost edv = self@.edges;
        let mut res: Vec<Item> = Vec::new();
        let mut i: usize = 0;
        proof {
            assert(dv.take(0) =~= Seq::<ItemView>::empty());
        }
        while i < self.items.len()
            invariant
                self@.wf(),
                dv == self@.items,
                edv == self@.edges,
                i <= self.items@.len(),
                self.items@.len() == dv.len(),
                res.deep_view() == sort_items(blocked_items(dv, edv, dv.take(i as int))),
            decreases dv.len() - i,
        {
            let it = &self.items[i];
            if matches!(it.status, Status::Open) && has_blocker_exec(&self.items, &self.edges, it) {
                insert_sorted_exec(&mut res, it.clone());
            }
            proof {
                assert(dv.take(i + 1).drop_last() =~= dv.take(i as int));
                assert(dv.take(i + 1).last() == dv[i as int]);
                if is_blocked_item(dv, edv, dv[i as int]) {
                    assert(blocked_items(dv, edv, dv.take(i + 1)) == blocked_items(
                        dv,
                        edv,
                        dv.take(i as int),
                    ).push(dv[i as int]));
                    lemma_sort_push(blocked_items(dv, edv, dv.take(i as int)), dv[i as int]);
                } else {
                    assert(blocked_items(dv, edv, dv.take(i + 1)) == blocked_items(
                        dv,
                        edv,
                        dv.take(i as int),
                    ));
                }
            }
            i = i + 1;
        }
        proof {
            assert(dv.take(dv.len() as int) =~= dv);
        }
        res
    }

    /// List items, optionally only those with one status, ordered by
    /// ascending priority and then ascending creation instant.
    pub fn list(&self, status_filter: Option<Status>) -> (r: Vec<Item>)
        requires
            self@.wf(),
        ensures
            r.deep_view() == sort_items(filtered_items(self@.items, status_filter)),
    {
        let ghost dv = self@.items;
        let mut res: Vec<Item> = Vec::new();
        let mut i: usize = 0;
        proof {
            assert(dv.take(0) =~= Seq::<ItemView>::empty());
        }
        while i < self.items.len()
            invariant
                dv == self@.items,
                i <= self.items@.len(),
                self.items@.len() == dv.len(),
                res.deep_view() == sort_items(filtered_items(dv.take(i as int), status_filter)),
            decreases dv.len() - i,
        {
            let it = &self.items[i];
            let keep = match status_filter {
                Some(st) => it.status == st,
                None => true,
            };
            if keep {
                insert_sorted_exec(&mut res, it.clone());
            }
            proof {
                assert(dv.take(i + 1).drop_last() =~= dv.take(i as int));
                assert(dv.take(i + 1).last() == dv[i as int]);
                if passes_filter(dv[i as int], status_filter) {
                    assert(filtered_items(dv.take(i + 1), status_filter) == filtered_items(
                        dv.take(i as int),
                        status_filter,
                    ).push(dv[i as int]));
                    lemma_sort_push(
                        filtered_items(dv.take(i as int), status_filter),
                        dv[i as int],
                    );
                } else {
                    assert(filtered_items(dv.take(i + 1), status_filter) == filtered_items(
                        dv.take(i as int),
                        status_filter,
                    ));
                }
            }
            i = i + 1;
        }
        proof {
            assert(dv.take(dv.len() as int) =~= dv);
        }
        res
    }

    /// Apply one already-persisted item record to the cache and the ghost
    /// history, without producing a pending line.
    fn replay_item_rec(&mut self, it: Item)
        requires
            old(self)@.wf(),
        ensures
            final(self)@.wf(),
            final(self)@ == (StoreView {
                item_log: old(self)@.item_log.push(it@),
                items: upsert_item(old(self)@.items, it@),
                ..old(self)@
            }),
    {
        let ghost pre = self@;
        let ghost itv = it@;
        proof {
            self.item_log@ = self.item_log@.push(itv);
        }
        match find_item_idx(&self.items, it.id.as_str()) {
            Some(i) => {
                self.items[i] = it;
                proof {
                    assert(self.items.deep_view() =~= pre.items.update(i as int, itv));
                }
            },
            None => {
                self.items.push(it);
                proof {
                    assert(self.items.deep_view() =~= pre.items.push(itv));
                }
            },
        }
        proof {
            lemma_replay_items_push(pre.item_log, itv);
            lemma_upsert_item_unique(pre.items, itv);
            assert(self@ =~= (StoreView {
                item_log: pre.item_log.push(itv),
                items: upsert_item(pre.items, itv),
                ..pre
            }));
        }
    }

    /// Apply one already-persisted edge record to the cache and the ghost
    /// history, without producing a pending line.
    fn replay_edge_rec(&mut self, e: Edge)
        requires
            old(self)@.wf(),
        ensures
            final(self)@.wf(),
            final(self)@ == (StoreView {
                edge_log: old(self)@.edge_log.push(e@),
                edges: apply_edge(old(self)@.edges, e@),
                ..old(self)@
            }),
    {
        let ghost pre = self@;
        let ghost ev = e@;
        proof {
            self.edge_log@ = self.edge_log@.push(ev);
        }
        if e.deleted {
            match find_edge_idx(&self.edges, e.from_id.as_str(), e.to_id.as_str(), e.kind) {
                Some(i) => {
                    self.edges.remove(i);
                    proof {
                        assert(self.edges.deep_view() =~= pre.edges.remove(i as int));
                        assert(self.edges.deep_view() =~= apply_edge(pre.edges, ev));
                    }
                },
                None => {
                    proof {
                        assert(self.edges.deep_view() =~= apply_edge(pre.edges, ev));
                    }
                },
            }
            proof {
                lemma_remove_edge_ok(pre.edges, ev.from_id, ev.to_id, ev.kind);
            }
        } else {
            match find_edge_idx(&self.edges, e.from_id.as_str(), e.to_id.as_str(), e.kind) {
                Some(i) => {
                    self.edges[i] = e;
                    proof {
                        assert(self.edges.deep_view() =~= pre.edges.update(i as int, ev));
                        assert(self.edges.deep_view() =~= apply_edge(pre.edges, ev));
                    }
                },
                None => {
                    self.edges.push(e);
                    proof {
                        assert(self.edges.deep_view() =~= pre.edges.push(ev));
                        assert(self.edges.deep_view() =~= apply_edge(pre.edges, ev));
                    }
                },
            }
            proof {
                lemma_upsert_edge_ok(pre.edges, ev);
            }
        }
        proof {
            lemma_replay_edges_push(pre.edge_log, ev);
            assert(self@ =~= (StoreView {
                edge_log: pre.edge_log.push(ev),
                edges: apply_edge(pre.edges, ev),
                ..pre
            }));
        }
    }

    /// Rebuild a store from the raw lines of the two logs: each line that
    /// decodes is replayed in order, any other line is skipped, and the
    /// line counts record how many lines were consumed, skipped ones
    /// included. The result is a function of the lines alone.
    pub fn rebuild(item_lines: &Vec<String>, edge_lines: &Vec<String>) -> (r: Store)
        requires
            item_lines@.len() <= u64::MAX,
            edge_lines@.len() <= u64::MAX,
        ensures
            r@.wf(),
            r@.item_log == decoded_items(item_lines.deep_view()),
            r@.edge_log == decoded_edges(edge_lines.deep_view()),
            r@.items == replay_items(decoded_items(item_lines.deep_view())),
            r@.edges == replay_edges(decoded_edges(edge_lines.deep_view())),
            r@.items_lines == item_lines@.len(),
            r@.edges_lines == edge_lines@.len(),
            r@.pending == Seq::<Seq<char>>::empty(),
    {
        let ghost ldv = item_lines.deep_view();
        let ghost edv = edge_lines.deep_view();
        let mut st = Store::new();
        let mut i: usize = 0;
        proof {
            assert(ldv.take(0) =~= Seq::<Seq<char>>::empty());
        }
        while i < item_lines.len()
            invariant
                ldv == item_lines.deep_view(),
                i <= item_lines@.len(),
                item_lines@.len() == ldv.len(),
                st@.wf(),
                st@.item_log == decoded_items(ldv.take(i as int)),
                st@.items == replay_items(st@.item_log),
                st@.edge_log == Seq::<EdgeView>::empty(),
                st@.edges == Seq::<EdgeView>::empty(),
                st@.items_lines == 0,
                st@.edges_lines == 0,
                st@.pending == Seq::<Seq<char>>::empty(),
            decreases ldv.len() - i,
        {
            let line = &item_lines[i];
            let parsed = crate::codec::parse_item_line(line.as_str());
            proof {
                assert(ldv.take(i + 1).drop_last() =~= ldv.take(i as int));
                assert(ldv.take(i + 1).last() == ldv[i as int]);
                assert(ldv[i as int] == line@);
                match parsed {
                    Some(ref it) => {
                        assert(line@ == ser_item(it@));
                        let w0 = choose|w: ItemView| line@ == ser_item(w);
                        assert(dec_item(line@) == Some(w0));
                        assert(w0 == it@);
                    },
                    None => {
                        if exists|w: ItemView| line@ == ser_item(w) {
                            let w0 = choose|w: ItemView| line@ == ser_item(w);
                            assert(line@ == ser_item(w0));
                        }
                        assert(dec_item(line@) is None);
                    },
                }
            }
            match parsed {
                Some(it) => {
                    st.replay_item_rec(it);
                },
                None => {},
            }
            i = i + 1;
        }
        proof {
            assert(ldv.take(ldv.len() as int) =~= ldv);
            assert(edv.take(0) =~= Seq::<Seq<char>>::empty());
        }
        let mut k: usize = 0;
        while k < edge_lines.len()
            invariant
                edv == edge_lines.deep_view(),
                k <= edge_lines@.len(),
                edge_lines@.len() == edv.len(),
                st@.wf(),
                st@.item_log == decoded_items(item_lines.deep_view()),
                st@.items == replay_items(st@.item_log),
                st@.edge_log == decoded_edges(edv.take(k as int)),
                st@.edges == replay_edges(st@.edge_log),
                st@.items_lines == 0,
                st@.edges_lines == 0,
                st@.pending == Seq::<Seq<char>>::empty(),
            decreases edv.len() - k,
        {
            let line = &edge_lines[k];
            let parsed = crate::codec::parse_edge_line(line.as_str());
            proof {
                assert(edv.take(k + 1).drop_last() =~= edv.take(k as int));
                assert(edv.take(k + 1).last() == edv[k as int]);
                assert(edv[k as int] == line@);
                match parsed {
                    Some(ref e) => {
                        assert(line@ == ser_edge(e@));
                        let w0 = choose|w: EdgeView| line@ == ser_edge(w);
                        assert(dec_edge(line@) == Some(w0));
                        assert(w0 == e@);
                    },
                    None => {
                        if exists|w: EdgeView| line@ == ser_edge(w) {
                            let w0 = choose|w: EdgeView| line@ == ser_edge(w);
                            assert(line@ == ser_edge(w0));
                        }
                        assert(dec_edge(line@) is None);
                    },
                }
            }
            match parsed {
                Some(e) => {
                    st.replay_edge_rec(e);
                },
                None => {},
            }
            k = k + 1;
        }
        proof {
            assert(edv.take(edv.len() as int) =~= edv);
        }
        st.items_lines = item_lines.len() as u64;
        st.edges_lines = edge_lines.len() as u64;
        st
    }
}


impl Store {
    /// A copy of the cached items, in cache order.
    pub fn snapshot_items(&self) -> (r: Vec<Item>)
        ensures
            r.deep_view() == self@.items,
    {
        let mut r: Vec<Item> = Vec::new();
        let mut i: usize = 0;
        while i < self.items.len()
            invariant
                i <= self.items@.len(),
                r@.len() == i,
                forall|j: int| 0 <= j < i ==> #[trigger] r@[j]@ == self.items@[j]@,
            decreases self.items@.len() - i,
        {
            r.push(self.items[i].clone());
            i = i + 1;
        }
        proof {
            assert(r.deep_view() =~= self@.items);
        }
        r
    }

    /// Whether the item log's line counter has reached its limit.
    pub fn lines_full(&self) -> (r: bool)
        ensures
            r == (self@.items_lines == u64::MAX as int),
    {
        self.items_lines == u64::MAX
    }
}

impl StoreError {
    /// A human-readable description of the error.
    pub fn message(&self) -> String {
        match self {
            StoreError::ItemNotFound(id) => {
                let mut s = String::from_str("item not found: ");
                s.append(id.as_str());
                s
            },
            StoreError::SelfReferentialEdge => String::from_str("cannot create edge to self"),
            StoreError::CycleDetected => String::from_str(
                "adding this edge would create a cycle",
            ),
            StoreError::InvalidStatusTransition { from, to } => {
                let mut s = String::from_str("invalid status transition from ");
                s.append(status_name(from));
                s.append(" to ");
                s.append(status_name(to));
                s
            },
            StoreError::Validation(e) => {
                let mut s = String::from_str("validation error: ");
                s.append(e.message().as_str());
                s
            },
        }
    }
}

fn status_name(s: &Status) -> &'static str {
    match s {
        Status::Open => "open",
        Status::InProgress => "in_progress",
        Status::Blocked => "blocked",
        Status::Closed => "closed",
    }
}

} // verus!
