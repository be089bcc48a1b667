//! Batch operations: create, close or re-status many items in one sweep.

use vstd::prelude::*;

use crate::codec::osv;
use crate::model::{
    find_item, has_item, lemma_upsert_preserves_ids, new_item_view, validate_new,
};
use crate::store::{
    closed_item, labels_view, opt_view, restatused_item, with_items_rec, Store, StoreError,
};
use crate::types::{Item, ItemView, Status};

verus! {

/// What to create, for one item of a batch.
#[derive(Debug)]
pub struct CreateSpec {
    /// The title of the item.
    pub title: String,
    /// Its priority; routine work by default.
    pub priority: u8,
    /// Its labels.
    pub labels: Vec<String>,
    /// Its description, if any.
    pub description: Option<String>,
}

impl CreateSpec {
    /// A specification with just a title and the default priority.
    pub fn new(title: &str) -> (r: CreateSpec)
        ensures
            r.title@ == title@,
            r.priority == 2,
            r.labels@.len() == 0,
            r.description is None,
    {
        CreateSpec { title: title.to_owned(), priority: 2, labels: Vec::new(), description: None }
    }

    /// Set the priority.
    pub fn with_priority(self, priority: u8) -> (r: CreateSpec)
        ensures
            r.title@ == self.title@,
            r.priority == priority,
            r.labels == self.labels,
            r.description == self.description,
    {
        CreateSpec { priority, ..self }
    }

    /// Set the labels.
    pub fn with_labels(self, labels: Vec<String>) -> (r: CreateSpec)
        ensures
            r.title@ == self.title@,
            r.priority == self.priority,
            r.labels == labels,
            r.description == self.description,
    {
        CreateSpec { labels, ..self }
    }

    /// Set the description.
    pub fn with_description(self, description: &str) -> (r: CreateSpec)
        ensures
            r.title@ == self.title@,
            r.priority == self.priority,
            r.labels == self.labels,
            r.description matches Some(d) && d@ == description@,
    {
        CreateSpec { description: Some(description.to_owned()), ..self }
    }
}

/// Whether a specification passes the checks `create` runs.
pub open spec fn spec_ok(sp: CreateSpec) -> bool {
    validate_new(sp.title@, sp.priority, sp.labels.deep_view()) is Ok
}

/// The specifications that pass validation, in input order.
pub open spec fn ok_specs(specs: Seq<CreateSpec>) -> Seq<CreateSpec>
    decreases specs.len(),
{
    if specs.len() == 0 {
        Seq::empty()
    } else {
        let pre = ok_specs(specs.drop_last());
        if spec_ok(specs.last()) {
            pre.push(specs.last())
        } else {
            pre
        }
    }
}

/// The positions of the specifications that fail validation, in input
/// order.
pub open spec fn err_indices(specs: Seq<CreateSpec>) -> Seq<int>
    decreases specs.len(),
{
    if specs.len() == 0 {
        Seq::empty()
    } else {
        let pre = err_indices(specs.drop_last());
        if spec_ok(specs.last()) {
            pre
        } else {
            pre.push(specs.len() - 1)
        }
    }
}

/// The created item carries exactly the specification's fields, freshly
/// stamped, with an identifier of the store's shape.
pub open spec fn matches_spec(v: ItemView, sp: CreateSpec) -> bool {
    &&& v == new_item_view(
        v.id,
        sp.title@,
        osv(sp.description),
        sp.priority,
        sp.labels.deep_view(),
        v.created_at,
    )
    &&& crate::id::id_format(v.id)
}

/// What a batch create did: the items that were created, and for each
/// failed specification its position and the error text.
#[derive(Debug)]
pub struct BatchCreateResult {
    /// Successfully created items, in input order.
    pub created: Vec<Item>,
    /// Failures: the index of the specification and the error message.
    pub errors: Vec<(usize, String)>,
}

/// What a batch close did.
#[derive(Debug)]
pub struct BatchCloseResult {
    /// Successfully closed items, in input order.
    pub closed: Vec<Item>,
    /// Ids that named no item.
    pub not_found: Vec<String>,
    /// Failures: the id and the error message.
    pub errors: Vec<(String, String)>,
}

fn as_refs(v: &Vec<String>) -> (r: Vec<&str>)
    ensures
        labels_view(r@) == v.deep_view(),
{
    let mut r: Vec<&str> = Vec::new();
    let mut i: usize = 0;
    while i < v.len()
        invariant
            i <= v@.len(),
            r@.len() == i,
            forall|j: int| 0 <= j < i ==> #[trigger] r@[j]@ == v@[j]@,
        decreases v@.len() - i,
    {
        r.push(v[i].as_str());
        i = i + 1;
    }
    proof {
        assert(labels_view(r@) =~= v.deep_view());
    }
    r
}

/// The views of a list of id arguments.
pub open spec fn id_views(ids: Seq<&str>) -> Seq<Seq<char>> {
    Seq::new(ids.len(), |i: int| ids[i]@)
}

/// The given ids that name a cached item, in input order.
pub open spec fn found_ids(items: Seq<ItemView>, ids: Seq<Seq<char>>) -> Seq<Seq<char>>
    decreases ids.len(),
{
    if ids.len() == 0 {
        Seq::empty()
    } else {
        let pre = found_ids(items, ids.drop_last());
        if has_item(items, ids.last()) {
            pre.push(ids.last())
        } else {
            pre
        }
    }
}

/// The given ids that name nothing, in input order.
pub open spec fn missing_ids(items: Seq<ItemView>, ids: Seq<Seq<char>>) -> Seq<Seq<char>>
    decreases ids.len(),
{
    if ids.len() == 0 {
        Seq::empty()
    } else {
        let pre = missing_ids(items, ids.drop_last());
        if has_item(items, ids.last()) {
            pre
        } else {
            pre.push(ids.last())
        }
    }
}

impl Store {
    /// Create the items of every specification in order; a failing
    /// specification is recorded with its position and does not stop the
    /// sweep. The sweep appends exactly the created items, in order.
    pub fn batch_create(&mut self, specs: Vec<CreateSpec>) -> (r: BatchCreateResult)
        requires
            old(self)@.wf(),
            old(self)@.items_lines + specs@.len() <= u64::MAX,
        ensures
            final(self)@.wf(),
            old(self)@.dag() ==> final(self)@.dag(),
            final(self)@ == with_items_rec(old(self)@, r.created.deep_view()),
            r.created@.len() == ok_specs(specs@).len(),
            forall|j: int| 0 <= j < r.created@.len() ==> matches_spec(
                #[trigger] r.created.deep_view()[j],
                ok_specs(specs@)[j],
            ),
            r.errors@.len() == err_indices(specs@).len(),
            forall|j: int| 0 <= j < r.errors@.len() ==> (#[trigger] r.errors@[j]).0 as int
                == err_indices(specs@)[j],
            r.created@.len() + r.errors@.len() == specs@.len(),
    {
        let ghost olds = self@;
        let mut created: Vec<Item> = Vec::new();
        let mut errors: Vec<(usize, String)> = Vec::new();
        let mut i: usize = 0;
        proof {
            assert(specs@.take(0) =~= Seq::<CreateSpec>::empty());
            assert(created.deep_view() =~= Seq::<ItemView>::empty());
        }
        while i < specs.len()
            invariant
                olds == old(self)@,
                olds.wf(),
                olds.items_lines + specs@.len() <= u64::MAX,
                i <= specs@.len(),
                self@.wf(),
                olds.dag() ==> self@.dag(),
                self@ == with_items_rec(olds, created.deep_view()),
                self@.items_lines == olds.items_lines + created@.len(),
                created.deep_view().len() == ok_specs(specs@.take(i as int)).len(),
                forall|j: int| 0 <= j < created@.len() ==> matches_spec(
                    #[trigger] created.deep_view()[j],
                    ok_specs(specs@.take(i as int))[j],
                ),
                errors@.len() == err_indices(specs@.take(i as int)).len(),
                forall|j: int| 0 <= j < errors@.len() ==> (#[trigger] errors@[j]).0 as int
                    == err_indices(specs@.take(i as int))[j],
                created@.len() + errors@.len() == i,
            decreases specs@.len() - i,
        {
            let ghost spv = specs@[i as int];
            let ghost pre_created = created.deep_view();
            proof {
                assert(specs@.take(i + 1).drop_last() =~= specs@.take(i as int));
                assert(specs@.take(i + 1).last() == spv);
            }
            let spec_i = &specs[i];
            let refs = as_refs(&spec_i.labels);
            let desc: Option<&str> = match &spec_i.description {
                Some(d) => Some(d.as_str()),
                None => None,
            };
            proof {
                assert(opt_view(desc) == osv(spv.description));
            }
            match self.create(spec_i.title.as_str(), spec_i.priority, refs.as_slice(), desc) {
                Ok(item) => {
                    created.push(item);
                    proof {
                        let it = created@.last();
                        assert(created.deep_view() =~= pre_created.push(it@));
                        assert(spec_ok(spv));
                        assert(ok_specs(specs@.take(i + 1)) =~= ok_specs(
                            specs@.take(i as int),
                        ).push(spv));
                        assert(matches_spec(it@, spv));
                        assert(created.deep_view().push(it@).drop_last() =~= created.deep_view());
                        assert(self@ == with_items_rec(olds, created.deep_view())) by {
                            assert(pre_created.push(it@).drop_last() =~= pre_created);
                        }
                        assert(err_indices(specs@.take(i + 1)) =~= err_indices(
                            specs@.take(i as int),
                        ));
                    }
                },
                Err(e) => {
                    errors.push((i, e.message()));
                    proof {
                        assert(!spec_ok(spv));
                        assert(err_indices(specs@.take(i + 1)) =~= err_indices(
                            specs@.take(i as int),
                        ).push(i as int));
                        assert(ok_specs(specs@.take(i + 1)) =~= ok_specs(specs@.take(i as int)));
                    }
                },
            }
            i = i + 1;
        }
        proof {
            assert(specs@.take(specs@.len() as int) =~= specs@);
        }
        BatchCreateResult { created, errors }
    }

    /// Close every named item in order: an unknown id is reported, a known
    /// one is closed against the state the earlier closes left. Nothing
    /// else can fail, so the error list stays empty.
    pub fn batch_close(&mut self, ids: &[&str], reason: Option<&str>) -> (r: BatchCloseResult)
        requires
            old(self)@.wf(),
            old(self)@.items_lines + ids@.len() <= u64::MAX,
        ensures
            final(self)@.wf(),
            old(self)@.dag() ==> final(self)@.dag(),
            final(self)@ == with_items_rec(old(self)@, r.closed.deep_view()),
            r.errors@.len() == 0,
            r.not_found.deep_view() == missing_ids(old(self)@.items, id_views(ids@)),
            r.closed@.len() == found_ids(old(self)@.items, id_views(ids@)).len(),
            forall|j: int| 0 <= j < r.closed@.len() ==> #[trigger] r.closed.deep_view()[j]
                == closed_item(
                find_item(
                    with_items_rec(old(self)@, r.closed.deep_view().take(j)).items,
                    found_ids(old(self)@.items, id_views(ids@))[j],
                )->0,
                opt_view(reason),
                r.closed.deep_view()[j].updated_at,
            ),
    {
        let ghost olds = self@;
        let ghost idv = id_views(ids@);
        let mut closed: Vec<Item> = Vec::new();
        let mut not_found: Vec<String> = Vec::new();
        let errors: Vec<(String, String)> = Vec::new();
        let mut i: usize = 0;
        proof {
            assert(idv.take(0) =~= Seq::<Seq<char>>::empty());
            assert(closed.deep_view() =~= Seq::<ItemView>::empty());
            assert(not_found.deep_view() =~= Seq::<Seq<char>>::empty());
        }
        while i < ids.len()
            invariant
                olds.wf(),
                olds.items_lines + ids@.len() <= u64::MAX,
                idv == id_views(ids@),
                ids@.len() == idv.len(),
                i <= idv.len(),
                self@.wf(),
                olds.dag() ==> self@.dag(),
                self@ == with_items_rec(olds, closed.deep_view()),
                self@.items_lines == olds.items_lines + closed@.len(),
                forall|x: Seq<char>| #[trigger] has_item(self@.items, x) == has_item(
                    olds.items,
                    x,
                ),
                closed.deep_view().len() == found_ids(olds.items, idv.take(i as int)).len(),
                forall|j: int| 0 <= j < closed@.len() ==> #[trigger] closed.deep_view()[j]
                    == closed_item(
                    find_item(
                        with_items_rec(olds, closed.deep_view().take(j)).items,
                        found_ids(olds.items, idv.take(i as int))[j],
                    )->0,
                    opt_view(reason),
                    closed.deep_view()[j].updated_at,
                ),
                not_found.deep_view() == missing_ids(olds.items, idv.take(i as int)),
                closed@.len() + not_found@.len() == i,
            decreases idv.len() - i,
        {
            let ghost pre_closed = closed.deep_view();
            proof {
                assert(idv.take(i + 1).drop_last() =~= idv.take(i as int));
                assert(idv.take(i + 1).last() == idv[i as int]);
                assert(idv[i as int] == ids@[i as int]@);
            }
            let id = ids[i];
            match self.get(id) {
                None => {
                    not_found.push(id.to_owned());
                    proof {
                        assert(!has_item(self@.items, id@));
                        assert(!has_item(olds.items, idv[i as int]));
                        assert(not_found.deep_view() =~= missing_ids(olds.items, idv.take(i + 1)));
                        assert(found_ids(olds.items, idv.take(i + 1)) =~= found_ids(
                            olds.items,
                            idv.take(i as int),
                        ));
                    }
                },
                Some(_) => {
                    let ghost pre = self@;
                    match self.close(id, reason) {
                        Ok(item) => {
                            closed.push(item);
                            proof {
                                let it = closed@.last();
                                assert(closed.deep_view() =~= pre_closed.push(it@));
                                assert(pre_closed.push(it@).drop_last() =~= pre_closed);
                                assert(pre_closed.push(it@).take(closed@.len() - 1) =~= pre_closed);
                                assert(has_item(olds.items, idv[i as int]));
                                assert(found_ids(olds.items, idv.take(i + 1)) =~= found_ids(
                                    olds.items,
                                    idv.take(i as int),
                                ).push(idv[i as int]));
                                assert(missing_ids(olds.items, idv.take(i + 1)) =~= missing_ids(
                                    olds.items,
                                    idv.take(i as int),
                                ));
                                assert(it@.id == idv[i as int]) by {
                                    assert(find_item(pre.items, id@)->0.id == id@);
                                }
                                lemma_upsert_preserves_ids(pre.items, it@);
                                assert forall|j: int| 0 <= j < closed@.len() implies
                                    #[trigger] closed.deep_view()[j] == closed_item(
                                    find_item(
                                        with_items_rec(olds, closed.deep_view().take(j)).items,
                                        found_ids(olds.items, idv.take(i + 1))[j],
                                    )->0,
                                    opt_view(reason),
                                    closed.deep_view()[j].updated_at,
                                ) by {
                                    if j < closed@.len() - 1 {
                                        assert(closed.deep_view().take(j) =~= pre_closed.take(j));
                                        assert(closed.deep_view()[j] == pre_closed[j]);
                                    } else {
                                        assert(closed.deep_view().take(j) =~= pre_closed);
                                    }
                                }
                            }
                        },
                        Err(_) => {
                            proof {
                                assert(has_item(self@.items, id@));
                                assert(false);
                            }
                        },
                    }
                },
            }
            i = i + 1;
        }
        proof {
            assert(idv.take(idv.len() as int) =~= idv);
        }
        BatchCloseResult { closed, not_found, errors }
    }

    /// Set the status of every named item in order; the first refusal
    /// stops the sweep and reports it, leaving the earlier changes in
    /// place.
    pub fn batch_set_status(&mut self, ids: &[&str], status: Status) -> (r: Result<
        Vec<Item>,
        StoreError,
    >)
        requires
            old(self)@.wf(),
            old(self)@.items_lines + ids@.len() <= u64::MAX,
        ensures
            final(self)@.wf(),
            old(self)@.dag() ==> final(self)@.dag(),
            exists|done: Seq<ItemView>| final(self)@ == with_items_rec(old(self)@, done),
            r matches Ok(items) ==> ({
                &&& final(self)@ == with_items_rec(old(self)@, items.deep_view())
                &&& items@.len() == ids@.len()
                &&& forall|j: int| 0 <= j < ids@.len() ==> has_item(
                    with_items_rec(old(self)@, items.deep_view().take(j)).items,
                    #[trigger] ids@[j]@,
                ) && items.deep_view()[j] == restatused_item(
                    find_item(
                        with_items_rec(old(self)@, items.deep_view().take(j)).items,
                        ids@[j]@,
                    )->0,
                    status,
                    items.deep_view()[j].updated_at,
                )
            }),
    {
        let ghost olds = self@;
        let mut updated: Vec<Item> = Vec::new();
        let mut i: usize = 0;
        proof {
            assert(updated.deep_view() =~= Seq::<ItemView>::empty());
        }
        while i < ids.len()
            invariant
                olds == old(self)@,
                olds.wf(),
                olds.items_lines + ids@.len() <= u64::MAX,
                i <= ids@.len(),
                self@.wf(),
                olds.dag() ==> self@.dag(),
                self@ == with_items_rec(olds, updated.deep_view()),
                self@.items_lines == olds.items_lines + updated@.len(),
                updated@.len() == i,
                forall|j: int| 0 <= j < i ==> has_item(
                    with_items_rec(olds, updated.deep_view().take(j)).items,
                    #[trigger] ids@[j]@,
                ) && updated.deep_view()[j] == restatused_item(
                    find_item(
                        with_items_rec(olds, updated.deep_view().take(j)).items,
                        ids@[j]@,
                    )->0,
                    status,
                    updated.deep_view()[j].updated_at,
                ),
            decreases ids@.len() - i,
        {
            let ghost pre_updated = updated.deep_view();
            match self.set_status(ids[i], status) {
                Ok(item) => {
                    updated.push(item);
                    proof {
                        let it = updated@.last();
                        assert(updated.deep_view() =~= pre_updated.push(it@));
                        assert(pre_updated.push(it@).drop_last() =~= pre_updated);
                        assert forall|j: int| 0 <= j < i + 1 implies has_item(
                            with_items_rec(olds, updated.deep_view().take(j)).items,
                            #[trigger] ids@[j]@,
                        ) && updated.deep_view()[j] == restatused_item(
                            find_item(
                                with_items_rec(olds, updated.deep_view().take(j)).items,
                                ids@[j]@,
                            )->0,
                            status,
                            updated.deep_view()[j].updated_at,
                        ) by {
                            if j < i {
                                assert(updated.deep_view().take(j) =~= pre_updated.take(j));
                                assert(updated.deep_view()[j] == pre_updated[j]);
                            } else {
                                assert(updated.deep_view().take(j) =~= pre_updated);
                            }
                        }
                    }
                },
                Err(e) => {
                    proof {
                        assert(final(self)@ == with_items_rec(old(self)@, updated.deep_view()));
                    }
                    return Err(e);
                },
            }
            i = i + 1;
        }
        Ok(updated)
    }
}

} // verus!
