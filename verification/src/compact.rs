//! Compaction: shrink or drop the descriptions of items that have been
//! closed longer than a configured age.

use vstd::prelude::*;

use crate::model::sort_items;
use crate::store::Store;
use crate::text::{lex_le, str_lex_le};
use crate::types::{Item, ItemView, Status};

verus! {

/// What compaction touches: how long an item must have been closed, and
/// what is left of its description.
#[derive(Debug)]
pub struct CompactConfig {
    /// Items closed longer than this many days are eligible.
    pub older_than_days: u32,
    /// Descriptions are cut to this many characters; nothing is kept when
    /// absent.
    pub max_description_len: Option<usize>,
}

impl Clone for CompactConfig {
    fn clone(&self) -> (r: CompactConfig)
        ensures
            r.older_than_days == self.older_than_days,
            r.max_description_len == self.max_description_len,
    {
        CompactConfig {
            older_than_days: self.older_than_days,
            max_description_len: self.max_description_len,
        }
    }
}

impl Default for CompactConfig {
    /// A week of age, descriptions removed entirely.
    fn default() -> (r: CompactConfig)
        ensures
            r.older_than_days == 7,
            r.max_description_len is None,
    {
        CompactConfig { older_than_days: 7, max_description_len: None }
    }
}

impl CompactConfig {
    /// The default configuration.
    pub fn new() -> (r: CompactConfig)
        ensures
            r.older_than_days == 7,
            r.max_description_len is None,
    {
        Default::default()
    }

    /// Set the age threshold in days.
    pub fn older_than_days(self, days: u32) -> (r: CompactConfig)
        ensures
            r.older_than_days == days,
            r.max_description_len == self.max_description_len,
    {
        CompactConfig { older_than_days: days, ..self }
    }

    /// Set the largest kept description length; absent removes them.
    pub fn max_description_len(self, len: Option<usize>) -> (r: CompactConfig)
        ensures
            r.older_than_days == self.older_than_days,
            r.max_description_len == len,
    {
        CompactConfig { max_description_len: len, ..self }
    }
}

/// What one compaction run did.
#[derive(Debug)]
pub struct CompactResult {
    /// How many items were compacted.
    pub compacted_count: usize,
    /// Roughly how many description characters were dropped.
    pub bytes_saved: usize,
    /// The ids of the compacted items.
    pub compacted_ids: Vec<String>,
}

/// Eligible for compaction: closed before the cutoff, with a description.
pub open spec fn is_compactable(it: ItemView, cutoff: Seq<char>) -> bool {
    it.status == Status::Closed && (it.closed_at matches Some(c) && lex_le(c, cutoff) && c
        != cutoff) && it.description is Some
}

/// The compactable items of a cache, in cache order.
pub open spec fn compactable_list(s: Seq<ItemView>, cutoff: Seq<char>) -> Seq<ItemView>
    decreases s.len(),
{
    if s.len() == 0 {
        Seq::empty()
    } else {
        let pre = compactable_list(s.drop_last(), cutoff);
        if is_compactable(s.last(), cutoff) {
            pre.push(s.last())
        } else {
            pre
        }
    }
}

fn is_compactable_exec(it: &Item, cutoff: &str) -> (r: bool)
    ensures
        r == is_compactable(it@, cutoff@),
{
    if !matches!(it.status, Status::Closed) {
        return false;
    }
    let c = match &it.closed_at {
        Some(c) => c,
        None => {
            return false;
        },
    };
    if !(str_lex_le(c.as_str(), cutoff) && !crate::text::str_eq(c.as_str(), cutoff)) {
        return false;
    }
    it.description.is_some()
}

impl Store {
    /// The items eligible for compaction against the given cutoff
    /// instant, ordered as `list` orders items.
    pub fn get_compactable_items_before(&self, cutoff: &str) -> (r: Vec<Item>)
        requires
            self@.wf(),
        ensures
            r.deep_view() == sort_items(compactable_list(self@.items, cutoff@)),
    {
        let ghost dv = self@.items;
        proof {
            assert(dv.take(0) =~= Seq::<ItemView>::empty());
        }
        let mut res: Vec<Item> = Vec::new();
        let mut i: usize = 0;
        let all = self.snapshot_items();
        while i < all.len()
            invariant
                all.deep_view() == dv,
                i <= all@.len(),
                all@.len() == dv.len(),
                res.deep_view() == sort_items(compactable_list(dv.take(i as int), cutoff@)),
            decreases dv.len() - i,
        {
            if is_compactable_exec(&all[i], cutoff) {
                crate::store::insert_sorted_exec(&mut res, all[i].clone());
            }
            proof {
                assert(dv.take(i + 1).drop_last() =~= dv.take(i as int));
                assert(dv.take(i + 1).last() == dv[i as int]);
                if is_compactable(dv[i as int], cutoff@) {
                    crate::store::lemma_sort_push(
                        compactable_list(dv.take(i as int), cutoff@),
                        dv[i as int],
                    );
                }
            }
            i = i + 1;
        }
        proof {
            assert(dv.take(dv.len() as int) =~= dv);
        }
        res
    }

    /// The items eligible for compaction, the cutoff drawn from the clock
    /// at the given age. The exact companion is
    /// `get_compactable_items_before`, which takes the cutoff itself.
    pub fn get_compactable_items(&self, older_than_days: u32) -> (r: Vec<Item>)
        requires
            self@.wf(),
            older_than_days <= crate::clock::MAX_AGE_DAYS,
        ensures
            exists|cutoff: Seq<char>| r.deep_view() == sort_items(
                compactable_list(self@.items, cutoff),
            ),
    {
        let cutoff = crate::clock::days_ago_rfc3339(older_than_days);
        let r = self.get_compactable_items_before(cutoff.as_str());
        proof {
            assert(r.deep_view() == sort_items(compactable_list(self@.items, cutoff@)));
        }
        r
    }
}

/// Whether an eligible item's description is longer than the configured
/// bound (with no bound, every description goes).
pub open spec fn needs_cut(it: ItemView, max: Option<usize>) -> bool {
    match max {
        None => true,
        Some(m) => it.description matches Some(d) && d.len() > m,
    }
}

/// What is left of a description: nothing, or its first characters and an
/// ellipsis.
pub open spec fn cut_desc(d: Seq<char>, max: Option<usize>) -> Option<Seq<char>> {
    match max {
        None => None,
        Some(m) => Some(
            d.take(
                if m >= 3 {
                    (m - 3) as int
                } else {
                    0
                },
            ) + "..."@,
        ),
    }
}

/// The record compaction would append for an item: the same item with its
/// description cut and a fresh stamp.
pub open spec fn compact_rec(it: ItemView, max: Option<usize>, now: Seq<char>) -> ItemView {
    crate::store::merged_item(
        it,
        None,
        Some(cut_desc(it.description->0, max)),
        None,
        None,
        now,
    )
}

/// Whether compaction updates an item: eligible, too long, and the cut
/// record passes validation.
pub open spec fn is_cut(it: ItemView, cutoff: Seq<char>, max: Option<usize>, now: Seq<char>) -> bool {
    is_compactable(it, cutoff) && needs_cut(it, max) && crate::types::spec_validate(
        compact_rec(it, max, now),
    ) is Ok
}

/// What one compaction pass leaves of an item: cut, or untouched.
pub open spec fn compact_one(
    it: ItemView,
    cutoff: Seq<char>,
    max: Option<usize>,
    now: Seq<char>,
) -> ItemView {
    if is_cut(it, cutoff, max, now) {
        compact_rec(it, max, now)
    } else {
        it
    }
}

/// The records one compaction pass appends, in cache order.
pub open spec fn compacted_recs(
    s: Seq<ItemView>,
    cutoff: Seq<char>,
    max: Option<usize>,
    now: Seq<char>,
) -> Seq<ItemView>
    decreases s.len(),
{
    if s.len() == 0 {
        Seq::empty()
    } else {
        let pre = compacted_recs(s.drop_last(), cutoff, max, now);
        if is_cut(s.last(), cutoff, max, now) {
            pre.push(compact_rec(s.last(), max, now))
        } else {
            pre
        }
    }
}

/// The ids of a sequence of items.
pub open spec fn ids_of(s: Seq<ItemView>) -> Seq<Seq<char>> {
    Seq::new(s.len(), |i: int| s[i].id)
}

/// The record lines of a sequence of items.
pub open spec fn lines_of(s: Seq<ItemView>) -> Seq<Seq<char>> {
    Seq::new(s.len(), |i: int| crate::codec::ser_item(s[i]))
}

proof fn lemma_compacted_recs_len(
    s: Seq<ItemView>,
    cutoff: Seq<char>,
    max: Option<usize>,
    now: Seq<char>,
)
    ensures
        compacted_recs(s, cutoff, max, now).len() <= s.len(),
    decreases s.len(),
{
    if s.len() > 0 {
        lemma_compacted_recs_len(s.drop_last(), cutoff, max, now);
    }
}

fn needs_cut_exec(it: &Item, max: Option<usize>) -> (r: bool)
    ensures
        r == needs_cut(it@, max),
{
    match max {
        None => true,
        Some(m) => match &it.description {
            Some(d) => {
                proof {
                    assert(it@.description == Some(d@));
                }
                d.unicode_len() > m
            },
            None => false,
        },
    }
}

/// Cut one description to the configured bound: drop it, or keep its
/// first characters and an ellipsis.
fn cut_description(desc: &String, max: Option<usize>) -> (r: Option<String>)
    requires
        max matches Some(m) ==> desc@.len() > m,
    ensures
        crate::codec::osv(r) == cut_desc(desc@, max),
{
    match max {
        None => None,
        Some(m) => {
            let keep = if m >= 3 {
                m - 3
            } else {
                0
            };
            let mut cutv = crate::text::chars_vec(desc.as_str());
            proof {
                assert(keep <= cutv@.len());
            }
            cutv.truncate(keep);
            proof {
                assert(cutv@ =~= desc@.take(keep as int));
            }
            let mut s = crate::text::string_from_chars(&cutv);
            s.append("...");
            proof {
                assert(s@ == desc@.take(keep as int) + "..."@);
            }
            Some(s)
        },
    }
}

impl Store {
    /// Run one compaction pass at the given instant against the given
    /// cutoff: every item closed before the cutoff whose description is
    /// longer than the bound has its description cut by an ordinary
    /// update; everything else is untouched. The whole transition is
    /// pinned: the cache, the appended records, the line count and the
    /// pending lines.
    #[verifier::rlimit(100)]
    pub fn compact_with(
        &mut self,
        now: String,
        cutoff: &str,
        max_description_len: Option<usize>,
    ) -> (r: CompactResult)
        requires
            old(self)@.wf(),
            old(self)@.items_lines + old(self)@.items.len() <= u64::MAX,
        ensures
            final(self)@.wf(),
            old(self)@.dag() ==> final(self)@.dag(),
            final(self)@.items == Seq::new(
                old(self)@.items.len(),
                |j: int| compact_one(old(self)@.items[j], cutoff@, max_description_len, now@),
            ),
            final(self)@.item_log == old(self)@.item_log + compacted_recs(
                old(self)@.items,
                cutoff@,
                max_description_len,
                now@,
            ),
            final(self)@.items_lines == old(self)@.items_lines + compacted_recs(
                old(self)@.items,
                cutoff@,
                max_description_len,
                now@,
            ).len(),
            final(self)@.pending == old(self)@.pending + lines_of(
                compacted_recs(old(self)@.items, cutoff@, max_description_len, now@),
            ),
            final(self)@.edge_log == old(self)@.edge_log,
            final(self)@.edges == old(self)@.edges,
            final(self)@.edges_lines == old(self)@.edges_lines,
            r.compacted_ids.deep_view() == ids_of(
                compacted_recs(old(self)@.items, cutoff@, max_description_len, now@),
            ),
            r.compacted_count == r.compacted_ids@.len(),
    {
        let ghost olds = self@;
        let ghost nv = now@;
        let ghost max = max_description_len;
        let snap = self.snapshot_items();
        let mut compacted_ids: Vec<String> = Vec::new();
        let mut bytes_saved: usize = 0;
        let mut i: usize = 0;
        proof {
            assert(olds.items.take(0) =~= Seq::<ItemView>::empty());
            assert(compacted_ids.deep_view() =~= ids_of(
                compacted_recs(olds.items.take(0), cutoff@, max, nv),
            ));
            assert(self@.item_log =~= olds.item_log + compacted_recs(
                olds.items.take(0),
                cutoff@,
                max,
                nv,
            ));
            assert(self@.pending =~= olds.pending + lines_of(
                compacted_recs(olds.items.take(0), cutoff@, max, nv),
            ));
        }
        while i < snap.len()
            invariant
                snap.deep_view() == olds.items,
                snap@.len() == olds.items.len(),
                i <= snap@.len(),
                nv == now@,
                max == max_description_len,
                olds.wf(),
                olds.items_lines + olds.items.len() <= u64::MAX,
                self@.wf(),
                olds.dag() ==> self@.dag(),
                self@.items.len() == olds.items.len(),
                forall|j: int| 0 <= j < i ==> self@.items[j] == compact_one(
                    #[trigger] olds.items[j],
                    cutoff@,
                    max,
                    nv,
                ),
                forall|j: int| i <= j < olds.items.len() ==> self@.items[j] == #[trigger] olds.items[j],
                self@.item_log == olds.item_log + compacted_recs(
                    olds.items.take(i as int),
                    cutoff@,
                    max,
                    nv,
                ),
                self@.items_lines == olds.items_lines + compacted_recs(
                    olds.items.take(i as int),
                    cutoff@,
                    max,
                    nv,
                ).len(),
                self@.pending == olds.pending + lines_of(
                    compacted_recs(olds.items.take(i as int), cutoff@, max, nv),
                ),
                self@.edge_log == olds.edge_log,
                self@.edges == olds.edges,
                self@.edges_lines == olds.edges_lines,
                compacted_ids.deep_view() == ids_of(
                    compacted_recs(olds.items.take(i as int), cutoff@, max, nv),
                ),
            decreases snap@.len() - i,
        {
            let ghost itv = olds.items[i as int];
            let ghost pre = self@;
            let ghost pre_recs = compacted_recs(olds.items.take(i as int), cutoff@, max, nv);
            proof {
                lemma_compacted_recs_len(olds.items.take(i as int), cutoff@, max, nv);
                assert(olds.items.take(i + 1).drop_last() =~= olds.items.take(i as int));
                assert(olds.items.take(i + 1).last() == itv);
            }
            let it = &snap[i];
            proof {
                assert(it@ == itv);
            }
            let eligible = is_compactable_exec(it, cutoff);
            let too_long = needs_cut_exec(it, max_description_len);
            if eligible && too_long {
                let desc = match &it.description {
                    Some(d) => d,
                    None => {
                        proof {
                            assert(false);
                        }
                        return CompactResult {
                            compacted_count: 0,
                            bytes_saved: 0,
                            compacted_ids: Vec::new(),
                        };
                    },
                };
                proof {
                    assert(it@.description == Some(desc@));
                    assert(itv.description->0 == desc@);
                }
                let dlen = desc.unicode_len();
                let shortened: Option<String> = cut_description(desc, max_description_len);
                let new_desc: Option<&str> = match &shortened {
                    Some(s) => Some(s.as_str()),
                    None => None,
                };
                proof {
                    assert(crate::store::opt_view(new_desc) == crate::codec::osv(shortened));
                    assert(crate::store::opt_view(new_desc) == cut_desc(itv.description->0, max));
                }
                let r = self.update_with(
                    now.clone(),
                    it.id.as_str(),
                    None,
                    Some(new_desc),
                    None,
                    None,
                );
                proof {
                    assert(it.id@ == itv.id);
                    assert(pre.items[i as int] == itv);
                    assert(crate::model::has_item(pre.items, itv.id));
                    let j = crate::model::item_index(pre.items, itv.id);
                    if j != i {
                        assert(crate::model::unique_ids(pre.items));
                        assert(false);
                    }
                    assert(crate::model::find_item(pre.items, itv.id) == Some(itv));
                }
                match r {
                    Ok(item) => {
                        proof {
                            assert(item@ == compact_rec(itv, max, nv));
                            assert(is_cut(itv, cutoff@, max, nv));
                            assert(compacted_recs(olds.items.take(i + 1), cutoff@, max, nv)
                                =~= pre_recs.push(compact_rec(itv, max, nv)));
                            assert(self@.items =~= pre.items.update(i as int, item@));
                            assert(self@.item_log =~= olds.item_log + compacted_recs(
                                olds.items.take(i + 1),
                                cutoff@,
                                max,
                                nv,
                            ));
                            assert(self@.pending =~= olds.pending + lines_of(
                                compacted_recs(olds.items.take(i + 1), cutoff@, max, nv),
                            ));
                        }
                        let saved = match &shortened {
                            Some(s) => {
                                let sl = s.unicode_len();
                                if dlen > sl {
                                    dlen - sl
                                } else {
                                    0
                                }
                            },
                            None => dlen,
                        };
                        if bytes_saved <= usize::MAX - saved {
                            bytes_saved = bytes_saved + saved;
                        }
                        compacted_ids.push(it.id.clone());
                        proof {
                            assert(compacted_ids.deep_view() =~= ids_of(pre_recs).push(itv.id));
                            assert(compact_rec(itv, max, nv).id == itv.id);
                            assert(ids_of(pre_recs.push(compact_rec(itv, max, nv))) =~= ids_of(
                                pre_recs,
                            ).push(itv.id));
                            assert(compacted_ids.deep_view() =~= ids_of(
                                compacted_recs(olds.items.take(i + 1), cutoff@, max, nv),
                            ));
                        }
                    },
                    Err(_) => {
                        proof {
                            assert(!is_cut(itv, cutoff@, max, nv));
                            assert(compacted_recs(olds.items.take(i + 1), cutoff@, max, nv)
                                =~= pre_recs);
                            assert(compact_one(itv, cutoff@, max, nv) == itv);
                        }
                    },
                }
            } else {
                proof {
                    assert(!is_cut(itv, cutoff@, max, nv));
                    assert(compacted_recs(olds.items.take(i + 1), cutoff@, max, nv) =~= pre_recs);
                    assert(compact_one(itv, cutoff@, max, nv) == itv);
                }
            }
            i = i + 1;
        }
        proof {
            assert(olds.items.take(olds.items.len() as int) =~= olds.items);
            assert(self@.items =~= Seq::new(
                olds.items.len(),
                |j: int| compact_one(olds.items[j], cutoff@, max, nv),
            ));
        }
        let compacted_count = compacted_ids.len();
        CompactResult { compacted_count, bytes_saved, compacted_ids }
    }

    /// Run compaction with the given configuration: the cutoff and the
    /// stamp are drawn from the clock, and the pass is `compact_with`,
    /// whose contract pins the whole transition for the drawn instants.
    pub fn compact(&mut self, config: &CompactConfig) -> (r: CompactResult)
        requires
            old(self)@.wf(),
            config.older_than_days <= crate::clock::MAX_AGE_DAYS,
            old(self)@.items_lines + old(self)@.items.len() <= u64::MAX,
        ensures
            final(self)@.wf(),
            old(self)@.dag() ==> final(self)@.dag(),
            exists|cutoff: Seq<char>, now: Seq<char>|
                {
                    &&& final(self)@.items == Seq::new(
                        old(self)@.items.len(),
                        |j: int| compact_one(
                            old(self)@.items[j],
                            cutoff,
                            config.max_description_len,
                            now,
                        ),
                    )
                    &&& final(self)@.item_log == old(self)@.item_log + compacted_recs(
                        old(self)@.items,
                        cutoff,
                        config.max_description_len,
                        now,
                    )
                    &&& r.compacted_ids.deep_view() == ids_of(
                        compacted_recs(old(self)@.items, cutoff, config.max_description_len, now),
                    )
                },
            r.compacted_count == r.compacted_ids@.len(),
    {
        let cutoff = crate::clock::days_ago_rfc3339(config.older_than_days);
        let now = crate::clock::now_rfc3339();
        let ghost cv = cutoff@;
        let ghost tv = now@;
        let r = self.compact_with(now, cutoff.as_str(), config.max_description_len);
        proof {
            assert(final(self)@.items == Seq::new(
                old(self)@.items.len(),
                |j: int| compact_one(old(self)@.items[j], cv, config.max_description_len, tv),
            ));
        }
        r
    }
}

} // verus!
