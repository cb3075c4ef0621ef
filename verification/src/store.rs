//! The record store: an id allocator and the ordered map of live records.
//!
//! Every operation's contract is stated over [`AdventureStore::records`], the
//! map from id to record view, and [`AdventureStore::last_id`], the highest
//! id handed out so far.

use crate::backend::{backend_counter, backend_records, StableBackend};
use crate::codec::{decode_adventure, encode_adventure, encoded, lemma_encoded_injective};
use crate::record::{
    payload_with_id, with_visit_date, AdventureView, CulinaryAdventure, CulinaryAdventurePayload,
    Error,
};
use crate::text::{
    contains_seq, delete_not_found_msg, get_not_found_msg, not_found_message, str_contains,
    update_date_not_found_msg, update_not_found_msg,
};
use vstd::prelude::*;

verus! {

broadcast use {vstd::seq_lib::group_to_multiset_ensures, vstd::multiset::group_multiset_axioms};

/// The store: a persisted id counter and the persisted map of records.
pub struct AdventureStore {
    backend: StableBackend,
    model: Ghost<Map<u64, AdventureView>>,
}

impl AdventureStore {
    /// The map of live records.
    pub closed spec fn records(&self) -> Map<u64, AdventureView> {
        self.model@
    }

    /// The highest id handed out so far; 0 before the first record.
    pub closed spec fn last_id(&self) -> u64 {
        backend_counter(self.backend)
    }

    /// Well-formedness: the persisted bytes encode exactly the modelled
    /// records, every record carries its own key, and no live id is zero or
    /// above the counter.
    pub closed spec fn wf(&self) -> bool {
        &&& self.model@.dom().finite()
        &&& self.model@.dom() == backend_records(self.backend).dom()
        &&& forall|k: u64|
            #[trigger] self.model@.dom().contains(k) ==> {
                &&& backend_records(self.backend)[k] == encoded(self.model@[k])
                &&& self.model@[k].id == k
                &&& 1 <= k <= backend_counter(self.backend)
            }
    }

    /// Creates a store over fresh backing memory: no records, counter at 0.
    pub fn new() -> (r: AdventureStore)
        ensures
            r.wf(),
            r.records() == Map::<u64, AdventureView>::empty(),
            r.last_id() == 0,
    {
        let backend = StableBackend::new();
        let r = AdventureStore { backend, model: Ghost(Map::empty()) };
        proof {
            assert(r.model@.dom() =~= backend_records(r.backend).dom());
        }
        r
    }

    /// Point lookup: the record at `id`, or NotFound naming the id.
    pub fn get_culinary_adventure(&self, id: u64) -> (r: Result<CulinaryAdventure, Error>)
        requires
            self.wf(),
        ensures
            self.records().dom().contains(id) ==> (r matches Ok(a) && a@ == self.records()[id]),
            !self.records().dom().contains(id) ==> (r matches Err(e) && e matches Error::NotFound {
                msg,
            } && msg@ == get_not_found_msg(id)),
    {
        match self.backend.record_get(id) {
            Some(bytes) => {
                let a = decode_stored(&bytes, Ghost(self.records()[id]));
                Ok(a)
            },
            None => Err(
                Error::NotFound {
                    msg: not_found_message("culinary adventure with id=", id, " not found"),
                },
            ),
        }
    }

    /// Creates a record: assigns the next id, persists the advanced counter,
    /// stores the record, and returns it. The new id is fresh: it was not
    /// live before, and it is one above every id handed out earlier.
    pub fn add_culinary_adventure(&mut self, payload: CulinaryAdventurePayload) -> (r:
        CulinaryAdventure)
        requires
            old(self).wf(),
            old(self).last_id() < u64::MAX,
        ensures
            final(self).wf(),
            final(self).last_id() == old(self).last_id() + 1,
            r.id == old(self).last_id() + 1,
            r@ == payload_with_id(payload@, r.id),
            !old(self).records().dom().contains(r.id),
            final(self).records() == old(self).records().insert(r.id, r@),
    {
        let c = self.backend.counter_get();
        let id = c + 1;
        self.backend.counter_set(id);
        let a = CulinaryAdventure {
            id,
            restaurant_name: payload.restaurant_name,
            dish_name: payload.dish_name,
            rating: payload.rating,
            notes: payload.notes,
            visit_date: payload.visit_date,
        };
        let bytes = encode_adventure(&a);
        self.backend.record_insert(id, bytes);
        proof {
            self.model@ = self.model@.insert(id, a@);
            assert(self.model@.dom() =~= backend_records(self.backend).dom());
        }
        a
    }

    /// Replaces every field except the id of the record at `id`, or reports
    /// NotFound and leaves the store unchanged.
    pub fn update_culinary_adventure(&mut self, id: u64, payload: CulinaryAdventurePayload) -> (r:
        Result<CulinaryAdventure, Error>)
        requires
            old(self).wf(),
        ensures
            final(self).wf(),
            final(self).last_id() == old(self).last_id(),
            old(self).records().dom().contains(id) ==> (r matches Ok(a) && a@ == payload_with_id(
                payload@,
                id,
            ) && final(self).records() == old(self).records().insert(id, a@)),
            !old(self).records().dom().contains(id) ==> (r matches Err(e) && e
                matches Error::NotFound { msg } && msg@ == update_not_found_msg(id) && final(self).records() == old(self).records()),
    {
        match self.backend.record_get(id) {
            Some(_existing) => {
                let a = CulinaryAdventure {
                    id,
                    restaurant_name: payload.restaurant_name,
                    dish_name: payload.dish_name,
                    rating: payload.rating,
                    notes: payload.notes,
                    visit_date: payload.visit_date,
                };
                let bytes = encode_adventure(&a);
                self.backend.record_insert(id, bytes);
                proof {
                    self.model@ = self.model@.insert(id, a@);
                    assert(self.model@.dom() =~= backend_records(self.backend).dom());
                }
                Ok(a)
            },
            None => Err(
                Error::NotFound {
                    msg: not_found_message(
                        "couldn't update culinary adventure with id=",
                        id,
                        ". item not found",
                    ),
                },
            ),
        }
    }

    /// Replaces only the visit date of the record at `id`, or reports
    /// NotFound and leaves the store unchanged.
    pub fn update_visit_date(&mut self, id: u64, new_visit_date: u64) -> (r: Result<
        CulinaryAdventure,
        Error,
    >)
        requires
            old(self).wf(),
        ensures
            final(self).wf(),
            final(self).last_id() == old(self).last_id(),
            old(self).records().dom().contains(id) ==> (r matches Ok(a) && a@ == with_visit_date(
                old(self).records()[id],
                new_visit_date,
            ) && final(self).records() == old(self).records().insert(id, a@)),
            !old(self).records().dom().contains(id) ==> (r matches Err(e) && e
                matches Error::NotFound { msg } && msg@ == update_date_not_found_msg(id) && final(self).records() == old(self).records()),
    {
        match self.backend.record_get(id) {
            Some(bytes) => {
                let mut a = decode_stored(&bytes, Ghost(self.records()[id]));
                a.visit_date = new_visit_date;
                proof {
                    assert(a@ == with_visit_date(old(self).records()[id], new_visit_date));
                }
                let out_bytes = encode_adventure(&a);
                self.backend.record_insert(id, out_bytes);
                proof {
                    self.model@ = self.model@.insert(id, a@);
                    assert(self.model@.dom() =~= backend_records(self.backend).dom());
                }
                Ok(a)
            },
            None => Err(
                Error::NotFound {
                    msg: not_found_message(
                        "couldn't update visit date for culinary adventure with id=",
                        id,
                        ". item not found",
                    ),
                },
            ),
        }
    }

    /// Removes and returns the record at `id`, or reports NotFound and
    /// leaves the store unchanged. The counter keeps its value, so the
    /// deleted id is never handed out again.
    pub fn delete_culinary_adventure(&mut self, id: u64) -> (r: Result<CulinaryAdventure, Error>)
        requires
            old(self).wf(),
        ensures
            final(self).wf(),
            final(self).last_id() == old(self).last_id(),
            old(self).records().dom().contains(id) ==> (r matches Ok(a) && a@ == old(
                self,
            ).records()[id] && final(self).records() == old(self).records().remove(id)),
            !old(self).records().dom().contains(id) ==> (r matches Err(e) && e
                matches Error::NotFound { msg } && msg@ == delete_not_found_msg(id) && final(self).records() == old(self).records()),
    {
        let ghost pre = self.records();
        match self.backend.record_remove(id) {
            Some(bytes) => {
                let a = decode_stored(&bytes, Ghost(pre[id]));
                proof {
                    self.model@ = self.model@.remove(id);
                    assert(self.model@.dom() =~= backend_records(self.backend).dom());
                }
                Ok(a)
            },
            None => {
                proof {
                    assert(self.model@.dom() =~= backend_records(self.backend).dom());
                }
                Err(
                    Error::NotFound {
                        msg: not_found_message(
                            "couldn't delete culinary adventure with id=",
                            id,
                            ". item not found.",
                        ),
                    },
                )
            },
        }
    }

    /// The highest id assigned so far; the next record gets one more.
    pub fn last_assigned_id(&self) -> (r: u64)
        ensures
            r == self.last_id(),
    {
        self.backend.counter_get()
    }

    /// The number of live records.
    pub fn get_total_culinary_adventures(&self) -> (r: u64)
        requires
            self.wf(),
        ensures
            r == self.records().dom().len(),
    {
        let r = self.backend.record_count();
        proof {
            assert(backend_records(self.backend).dom().finite());
        }
        r
    }
}

/// Ids strictly ascend along the sequence.
pub open spec fn ascending_ids(s: Seq<CulinaryAdventure>) -> bool {
    forall|i: int, j: int| #![trigger s[i], s[j]] 0 <= i < j < s.len() ==> s[i].id < s[j].id
}

/// No two elements carry the same id.
pub open spec fn distinct_ids(s: Seq<CulinaryAdventure>) -> bool {
    forall|i: int, j: int| #![trigger s[i], s[j]] 0 <= i < j < s.len() ==> s[i].id != s[j].id
}

/// Every element is the live record under its own id.
pub open spec fn entries_of(s: Seq<CulinaryAdventure>, m: Map<u64, AdventureView>) -> bool {
    forall|i: int|
        #![trigger s[i]]
        0 <= i < s.len() ==> m.dom().contains(s[i].id) && s[i]@ == m[s[i].id]
}

/// Every element satisfies the selector.
pub open spec fn all_selected(s: Seq<CulinaryAdventure>, sel: spec_fn(AdventureView) -> bool) -> bool {
    forall|i: int| #![trigger s[i]] 0 <= i < s.len() ==> sel(s[i]@)
}

/// Every live record the selector accepts appears in the sequence.
pub open spec fn covers(
    s: Seq<CulinaryAdventure>,
    m: Map<u64, AdventureView>,
    sel: spec_fn(AdventureView) -> bool,
) -> bool {
    forall|k: u64|
        #![trigger m[k]]
        m.dom().contains(k) && sel(m[k]) ==> exists|i: int|
            0 <= i < s.len() && (#[trigger] s[i].id) == k
}

/// The sequence lists, in ascending id order, exactly the live records the
/// selector accepts.
pub open spec fn listing(
    s: Seq<CulinaryAdventure>,
    m: Map<u64, AdventureView>,
    sel: spec_fn(AdventureView) -> bool,
) -> bool {
    ascending_ids(s) && entries_of(s, m) && all_selected(s, sel) && covers(s, m, sel)
}

/// The set of live ids whose record the selector accepts.
pub open spec fn selected_ids(m: Map<u64, AdventureView>, sel: spec_fn(AdventureView) -> bool) -> Set<
    u64,
> {
    m.dom().filter(|k: u64| sel(m[k]))
}

/// Ratings never increase along the sequence.
pub open spec fn sorted_by_rating_desc(s: Seq<CulinaryAdventure>) -> bool {
    forall|i: int, j: int| #![trigger s[i], s[j]] 0 <= i < j < s.len() ==> s[i].rating >= s[j].rating
}

/// A listing is as long as the set of ids it lists.
proof fn lemma_listing_len(
    s: Seq<CulinaryAdventure>,
    m: Map<u64, AdventureView>,
    sel: spec_fn(AdventureView) -> bool,
)
    requires
        m.dom().finite(),
        listing(s, m, sel),
    ensures
        s.len() == selected_ids(m, sel).len(),
{
    let ids = Seq::new(s.len(), |i: int| s[i].id);
    assert(ids.no_duplicates()) by {
        assert forall|i: int, j: int|
            0 <= i < ids.len() && 0 <= j < ids.len() && i != j implies ids[i] != ids[j] by {
            if i < j {
                assert(s[i].id < s[j].id);
            } else {
                assert(s[j].id < s[i].id);
            }
        }
    }
    ids.unique_seq_to_set();
    let target = selected_ids(m, sel);
    assert(ids.to_set() =~= target) by {
        assert forall|k: u64| ids.to_set().contains(k) implies target.contains(k) by {
            let i = choose|i: int| 0 <= i < ids.len() && ids[i] == k;
            assert(m.dom().contains(s[i].id) && s[i]@ == m[s[i].id]);
            assert(sel(s[i]@));
        }
        assert forall|k: u64| target.contains(k) implies ids.to_set().contains(k) by {
            assert(m.dom().contains(k) && sel(m[k]));
            let i = choose|i: int| 0 <= i < s.len() && s[i].id == k;
            assert(ids[i] == k);
            assert(ids.contains(k));
        }
    }
}

impl AdventureStore {
    /// Every record, in ascending id order.
    #[verifier::loop_isolation(false)]
    pub fn get_all_culinary_adventures(&self) -> (r: Vec<CulinaryAdventure>)
        requires
            self.wf(),
        ensures
            listing(r@, self.records(), (|w: AdventureView| true)),
            r@.len() == self.records().dom().len(),
    {
        let ghost m = self.records();
        let entries = self.backend.record_entries();
        let mut out: Vec<CulinaryAdventure> = Vec::new();
        let mut i: usize = 0;
        while i < entries.len()
            invariant
                i <= entries@.len(),
                out@.len() == i,
                forall|p: int|
                    #![trigger out@[p]]
                    0 <= p < i ==> out@[p].id == entries@[p].0 && m.dom().contains(out@[p].id)
                        && out@[p]@ == m[out@[p].id],
            decreases entries@.len() - i,
        {
            let pair = &entries[i];
            let a = decode_stored(&pair.1, Ghost(m[pair.0]));
            out.push(a);
            i = i + 1;
        }
        proof {
            assert(covers(out@, m, (|w: AdventureView| true))) by {
                assert forall|k: u64| m.dom().contains(k) && true implies exists|p: int|
                    0 <= p < out@.len() && (#[trigger] out@[p].id) == k by {
                    let q = choose|q: int| 0 <= q < entries@.len() && (#[trigger] entries@[q].0)
                        == k;
                    assert(out@[q].id == k);
                }
            }
            lemma_listing_len(out@, m, (|w: AdventureView| true));
            assert(selected_ids(m, (|w: AdventureView| true)) =~= m.dom());
        }
        out
    }

    /// The records whose visit date is at or before the bound, in ascending
    /// id order.
    #[verifier::rlimit(30)]
    #[verifier::loop_isolation(false)]
    pub fn get_culinary_adventures_before_date(&self, visit_date: u64) -> (r: Vec<
        CulinaryAdventure,
    >)
        requires
            self.wf(),
        ensures
            listing(r@, self.records(), (|w: AdventureView| w.visit_date <= visit_date)),
            r@.len() == selected_ids(
                self.records(),
                (|w: AdventureView| w.visit_date <= visit_date),
            ).len(),
    {
        let ghost m = self.records();
        let ghost sel = (|w: AdventureView| w.visit_date <= visit_date);
        let entries = self.backend.record_entries();
        let mut out: Vec<CulinaryAdventure> = Vec::new();
        let mut i: usize = 0;
        while i < entries.len()
            invariant
                i <= entries@.len(),
                ascending_ids(out@),
                entries_of(out@, m),
                all_selected(out@, sel),
                forall|p: int|
                    #![trigger out@[p]]
                    0 <= p < out@.len() ==> exists|q: int|
                        0 <= q < i && (#[trigger] entries@[q].0) == out@[p].id,
                forall|q: int|
                    #![trigger entries@[q]]
                    0 <= q < i && sel(m[entries@[q].0]) ==> exists|p: int|
                        0 <= p < out@.len() && (#[trigger] out@[p].id) == entries@[q].0,
            decreases entries@.len() - i,
        {
            let pair = &entries[i];
            let a = decode_stored(&pair.1, Ghost(m[pair.0]));
            if a.visit_date <= visit_date {
                proof {
                    assert forall|p: int| 0 <= p < out@.len() implies out@[p].id < a.id by {
                        let q = choose|q: int| 0 <= q < i && (#[trigger] entries@[q].0)
                            == out@[p].id;
                        assert(entries@[q].0 < entries@[i as int].0);
                    }
                }
                let ghost out_pre = out@;
                out.push(a);
                proof {
                    assert(out@[out@.len() - 1].id == entries@[i as int].0);
                    assert forall|q: int|
                        0 <= q < i && sel(m[entries@[q].0]) implies exists|p: int|
                        0 <= p < out@.len() && (#[trigger] out@[p].id) == entries@[q].0 by {
                        let p = choose|p: int|
                            0 <= p < out_pre.len() && (#[trigger] out_pre[p].id) == entries@[q].0;
                        assert(out@[p] == out_pre[p]);
                    }
                    assert forall|p: int| #![trigger out@[p]] 0 <= p < out@.len() implies exists|
                        q: int,
                    | 0 <= q < i + 1 && (#[trigger] entries@[q].0) == out@[p].id by {
                        if p < out_pre.len() {
                            let q = choose|q: int|
                                0 <= q < i && (#[trigger] entries@[q].0) == out_pre[p].id;
                            assert(out@[p] == out_pre[p]);
                        } else {
                            assert(entries@[i as int].0 == out@[p].id);
                        }
                    }
                }
            } else {
                proof {
                    assert(!sel(m[entries@[i as int].0]));
                }
            }
            i = i + 1;
        }
        proof {
            assert(covers(out@, m, sel)) by {
                assert forall|k: u64| m.dom().contains(k) && sel(m[k]) implies exists|p: int|
                    0 <= p < out@.len() && (#[trigger] out@[p].id) == k by {
                    let q = choose|q: int| 0 <= q < entries@.len() && (#[trigger] entries@[q].0)
                        == k;
                }
            }
            lemma_listing_len(out@, m, sel);
        }
        out
    }

    /// The number of records whose visit date is at or before the bound.
    pub fn get_culinary_adventures_count_before_date(&self, visit_date: u64) -> (r: usize)
        requires
            self.wf(),
        ensures
            r == selected_ids(
                self.records(),
                (|w: AdventureView| w.visit_date <= visit_date),
            ).len(),
    {
        let v = self.get_culinary_adventures_before_date(visit_date);
        v.len()
    }

    /// The records whose notes contain the keyword, in ascending id order.
    #[verifier::rlimit(30)]
    #[verifier::loop_isolation(false)]
    pub fn search_culinary_adventures_by_notes(&self, keyword: String) -> (r: Vec<
        CulinaryAdventure,
    >)
        requires
            self.wf(),
        ensures
            listing(r@, self.records(), (|w: AdventureView| contains_seq(w.notes, keyword@))),
    {
        let ghost m = self.records();
        let ghost sel = (|w: AdventureView| contains_seq(w.notes, keyword@));
        let entries = self.backend.record_entries();
        let mut out: Vec<CulinaryAdventure> = Vec::new();
        let mut i: usize = 0;
        while i < entries.len()
            invariant
                i <= entries@.len(),
                ascending_ids(out@),
                entries_of(out@, m),
                all_selected(out@, sel),
                forall|p: int|
                    #![trigger out@[p]]
                    0 <= p < out@.len() ==> exists|q: int|
                        0 <= q < i && (#[trigger] entries@[q].0) == out@[p].id,
                forall|q: int|
                    #![trigger entries@[q]]
                    0 <= q < i && sel(m[entries@[q].0]) ==> exists|p: int|
                        0 <= p < out@.len() && (#[trigger] out@[p].id) == entries@[q].0,
            decreases entries@.len() - i,
        {
            let pair = &entries[i];
            let a = decode_stored(&pair.1, Ghost(m[pair.0]));
            if str_contains(a.notes.as_str(), keyword.as_str()) {
                proof {
                    assert forall|p: int| 0 <= p < out@.len() implies out@[p].id < a.id by {
                        let q = choose|q: int| 0 <= q < i && (#[trigger] entries@[q].0)
                            == out@[p].id;
                        assert(entries@[q].0 < entries@[i as int].0);
                    }
                }
                let ghost out_pre = out@;
                out.push(a);
                proof {
                    assert(out@[out@.len() - 1].id == entries@[i as int].0);
                    assert forall|q: int|
                        0 <= q < i && sel(m[entries@[q].0]) implies exists|p: int|
                        0 <= p < out@.len() && (#[trigger] out@[p].id) == entries@[q].0 by {
                        let p = choose|p: int|
                            0 <= p < out_pre.len() && (#[trigger] out_pre[p].id) == entries@[q].0;
                        assert(out@[p] == out_pre[p]);
                    }
                    assert forall|p: int| #![trigger out@[p]] 0 <= p < out@.len() implies exists|
                        q: int,
                    | 0 <= q < i + 1 && (#[trigger] entries@[q].0) == out@[p].id by {
                        if p < out_pre.len() {
                            let q = choose|q: int|
                                0 <= q < i && (#[trigger] entries@[q].0) == out_pre[p].id;
                            assert(out@[p] == out_pre[p]);
                        } else {
                            assert(entries@[i as int].0 == out@[p].id);
                        }
                    }
                }
            } else {
                proof {
                    assert(!sel(m[entries@[i as int].0]));
                }
            }
            i = i + 1;
        }
        proof {
            assert(covers(out@, m, sel)) by {
                assert forall|k: u64| m.dom().contains(k) && sel(m[k]) implies exists|p: int|
                    0 <= p < out@.len() && (#[trigger] out@[p].id) == k by {
                    let q = choose|q: int| 0 <= q < entries@.len() && (#[trigger] entries@[q].0)
                        == k;
                }
            }
        }
        out
    }

    /// The records whose dish name contains the fragment, in ascending id
    /// order.
    #[verifier::rlimit(80)]
    #[verifier::spinoff_prover]
    #[verifier::loop_isolation(false)]
    pub fn search_culinary_adventures_by_partial_dish_name(&self, partial_name: String) -> (r: Vec<
        CulinaryAdventure,
    >)
        requires
            self.wf(),
        ensures
            listing(
                r@,
                self.records(),
                (|w: AdventureView| contains_seq(w.dish_name, partial_name@)),
            ),
    {
        let ghost m = self.records();
        let ghost sel = (|w: AdventureView| contains_seq(w.dish_name, partial_name@));
        let entries = self.backend.record_entries();
        let mut out: Vec<CulinaryAdventure> = Vec::new();
        let mut i: usize = 0;
        while i < entries.len()
            invariant
                i <= entries@.len(),
                ascending_ids(out@),
                entries_of(out@, m),
                all_selected(out@, sel),
                forall|p: int|
                    #![trigger out@[p]]
                    0 <= p < out@.len() ==> exists|q: int|
                        0 <= q < i && (#[trigger] entries@[q].0) == out@[p].id,
                forall|q: int|
                    #![trigger entries@[q]]
                    0 <= q < i && sel(m[entries@[q].0]) ==> exists|p: int|
                        0 <= p < out@.len() && (#[trigger] out@[p].id) == entries@[q].0,
            decreases entries@.len() - i,
        {
            let pair = &entries[i];
            let a = decode_stored(&pair.1, Ghost(m[pair.0]));
            if str_contains(a.dish_name.as_str(), partial_name.as_str()) {
                proof {
                    assert forall|p: int| 0 <= p < out@.len() implies out@[p].id < a.id by {
                        let q = choose|q: int| 0 <= q < i && (#[trigger] entries@[q].0)
                            == out@[p].id;
                        assert(entries@[q].0 < entries@[i as int].0);
                    }
                }
                let ghost out_pre = out@;
                out.push(a);
                proof {
                    assert(out@[out@.len() - 1].id == entries@[i as int].0);
                    assert forall|q: int|
                        0 <= q < i && sel(m[entries@[q].0]) implies exists|p: int|
                        0 <= p < out@.len() && (#[trigger] out@[p].id) == entries@[q].0 by {
                        let p = choose|p: int|
                            0 <= p < out_pre.len() && (#[trigger] out_pre[p].id) == entries@[q].0;
                        assert(out@[p] == out_pre[p]);
                    }
                    assert forall|p: int| #![trigger out@[p]] 0 <= p < out@.len() implies exists|
                        q: int,
                    | 0 <= q < i + 1 && (#[trigger] entries@[q].0) == out@[p].id by {
                        if p < out_pre.len() {
                            let q = choose|q: int|
                                0 <= q < i && (#[trigger] entries@[q].0) == out_pre[p].id;
                            assert(out@[p] == out_pre[p]);
                        } else {
                            assert(entries@[i as int].0 == out@[p].id);
                        }
                    }
                }
            } else {
                proof {
                    assert(!sel(m[entries@[i as int].0]));
                }
            }
            i = i + 1;
        }
        proof {
            assert(covers(out@, m, sel)) by {
                assert forall|k: u64| m.dom().contains(k) && sel(m[k]) implies exists|p: int|
                    0 <= p < out@.len() && (#[trigger] out@[p].id) == k by {
                    let q = choose|q: int| 0 <= q < entries@.len() && (#[trigger] entries@[q].0)
                        == k;
                }
            }
        }
        out
    }

    /// The records whose restaurant name equals the given name exactly, in
    /// ascending id order.
    #[verifier::rlimit(80)]
    #[verifier::spinoff_prover]
    #[verifier::loop_isolation(false)]
    pub fn get_culinary_adventures_by_restaurant(&self, restaurant_name: String) -> (r: Vec<
        CulinaryAdventure,
    >)
        requires
            self.wf(),
        ensures
            listing(
                r@,
                self.records(),
                (|w: AdventureView| w.restaurant_name == restaurant_name@),
            ),
    {
        let ghost m = self.records();
        let ghost sel = (|w: AdventureView| w.restaurant_name == restaurant_name@);
        let entries = self.backend.record_entries();
        let mut out: Vec<CulinaryAdventure> = Vec::new();
        let mut i: usize = 0;
        while i < entries.len()
            invariant
                i <= entries@.len(),
                ascending_ids(out@),
                entries_of(out@, m),
                all_selected(out@, sel),
                forall|p: int|
                    #![trigger out@[p]]
                    0 <= p < out@.len() ==> exists|q: int|
                        0 <= q < i && (#[trigger] entries@[q].0) == out@[p].id,
                forall|q: int|
                    #![trigger entries@[q]]
                    0 <= q < i && sel(m[entries@[q].0]) ==> exists|p: int|
                        0 <= p < out@.len() && (#[trigger] out@[p].id) == entries@[q].0,
            decreases entries@.len() - i,
        {
            let pair = &entries[i];
            let a = decode_stored(&pair.1, Ghost(m[pair.0]));
            if a.restaurant_name == restaurant_name {
                proof {
                    assert forall|p: int| 0 <= p < out@.len() implies out@[p].id < a.id by {
                        let q = choose|q: int| 0 <= q < i && (#[trigger] entries@[q].0)
                            == out@[p].id;
                        assert(entries@[q].0 < entries@[i as int].0);
                    }
                }
                let ghost out_pre = out@;
                out.push(a);
                proof {
                    assert(out@[out@.len() - 1].id == entries@[i as int].0);
                    assert forall|q: int|
                        0 <= q < i && sel(m[entries@[q].0]) implies exists|p: int|
                        0 <= p < out@.len() && (#[trigger] out@[p].id) == entries@[q].0 by {
                        let p = choose|p: int|
                            0 <= p < out_pre.len() && (#[trigger] out_pre[p].id) == entries@[q].0;
                        assert(out@[p] == out_pre[p]);
                    }
                    assert forall|p: int| #![trigger out@[p]] 0 <= p < out@.len() implies exists|
                        q: int,
                    | 0 <= q < i + 1 && (#[trigger] entries@[q].0) == out@[p].id by {
                        if p < out_pre.len() {
                            let q = choose|q: int|
                                0 <= q < i && (#[trigger] entries@[q].0) == out_pre[p].id;
                            assert(out@[p] == out_pre[p]);
                        } else {
                            assert(entries@[i as int].0 == out@[p].id);
                        }
                    }
                }
            } else {
                proof {
                    assert(!sel(m[entries@[i as int].0]));
                }
            }
            i = i + 1;
        }
        proof {
            assert(covers(out@, m, sel)) by {
                assert forall|k: u64| m.dom().contains(k) && sel(m[k]) implies exists|p: int|
                    0 <= p < out@.len() && (#[trigger] out@[p].id) == k by {
                    let q = choose|q: int| 0 <= q < entries@.len() && (#[trigger] entries@[q].0)
                        == k;
                }
            }
        }
        out
    }

    /// The `top_n` best-rated records, highest rating first. With `top_n` of
    /// 0 the result is empty; with `top_n` at or above the record count it
    /// holds every record. Every record left out rates no better than any
    /// record returned; the order among equal ratings is unspecified.
    pub fn get_top_rated_culinary_adventures(&self, top_n: usize) -> (r: Vec<CulinaryAdventure>)
        requires
            self.wf(),
        ensures
            r@.len() == (if top_n <= self.records().dom().len() {
                top_n as nat
            } else {
                self.records().dom().len()
            }),
            sorted_by_rating_desc(r@),
            distinct_ids(r@),
            entries_of(r@, self.records()),
            forall|k: u64, i: int|
                #![trigger self.records()[k], r@[i]]
                self.records().dom().contains(k) && 0 <= i < r@.len() && !(exists|j: int|
                    0 <= j < r@.len() && (#[trigger] r@[j].id) == k) ==> self.records()[k].rating
                    <= r@[i].rating,
    {
        let ghost m = self.records();
        let all = self.get_all_culinary_adventures();
        let ghost all0 = all@;
        let sorted = sort_by_rating_desc(all);
        let ghost s = sorted@;
        let mut kept = sorted;
        kept.truncate(top_n);
        proof {
            all0.to_multiset_ensures();
            s.to_multiset_ensures();
            assert(s.len() == all0.len());
            lemma_permutation_distinct_ids(all0, s);
            assert(entries_of(s, m)) by {
                assert forall|i: int| 0 <= i < s.len() implies m.dom().contains(
                    (#[trigger] s[i]).id,
                ) && s[i]@ == m[s[i].id] by {
                    assert(s.contains(s[i]));
                    lemma_multiset_transfer(all0, s, s[i]);
                    let q = choose|q: int| 0 <= q < all0.len() && all0[q] == s[i];
                }
            }
            if top_n <= s.len() {
                assert(kept@ == s.subrange(0, top_n as int));
            } else {
                assert(kept@ == s);
                assert(kept@ =~= s.subrange(0, s.len() as int));
            }
            let klen = kept@.len() as int;
            assert forall|k: u64, i: int|
                m.dom().contains(k) && 0 <= i < klen && !(exists|j: int|
                    0 <= j < klen && (#[trigger] kept@[j].id) == k) implies (#[trigger] m[k]).rating
                <= (#[trigger] kept@[i]).rating by {
                let q = choose|q: int| 0 <= q < all0.len() && (#[trigger] all0[q].id) == k;
                assert(all0.contains(all0[q]));
                lemma_multiset_transfer(s, all0, all0[q]);
                let p = choose|p: int| 0 <= p < s.len() && s[p] == all0[q];
                if p < klen {
                    assert(kept@[p].id == k);
                    assert(false);
                } else {
                    assert(s[i].rating >= s[p].rating);
                    assert(kept@[i] == s[i]);
                    assert(m[k] == all0[q]@);
                }
            }
        }
        kept
    }
}

/// Sorts by rating, highest first, by repeatedly extracting a maximum.
#[verifier::loop_isolation(false)]
fn sort_by_rating_desc(v: Vec<CulinaryAdventure>) -> (r: Vec<CulinaryAdventure>)
    ensures
        r@.to_multiset() == v@.to_multiset(),
        sorted_by_rating_desc(r@),
{
    let ghost v0 = v@;
    let mut src = v;
    let mut out: Vec<CulinaryAdventure> = Vec::new();
    proof {
        assert(out@.to_multiset().add(src@.to_multiset()) =~= v0.to_multiset());
    }
    while src.len() > 0
        invariant
            out@.to_multiset().add(src@.to_multiset()) == v0.to_multiset(),
            sorted_by_rating_desc(out@),
            forall|q: int|
                #![trigger src@[q]]
                0 <= q < src@.len() ==> out@.len() == 0 || src@[q].rating <= out@[out@.len()
                    - 1].rating,
        decreases src@.len(),
    {
        let mut mi: usize = 0;
        let mut j: usize = 1;
        while j < src.len()
            invariant
                0 < src@.len(),
                mi < j,
                j <= src@.len(),
                forall|q: int| 0 <= q < j ==> src@[q].rating <= src@[mi as int].rating,
            decreases src@.len() - j,
        {
            if src[j].rating > src[mi].rating {
                mi = j;
            }
            j = j + 1;
        }
        let ghost src_pre = src@;
        let ghost out_pre = out@;
        let x = src.remove(mi);
        proof {
            src_pre.to_multiset_ensures();
            out_pre.to_multiset_ensures();
            src_pre.remove_ensures(mi as int);
            assert(src_pre.contains(x)) by {
                assert(src_pre[mi as int] == x);
            }
            assert(src_pre.to_multiset().count(x) > 0);
            assert(out_pre.push(x).to_multiset().add(src@.to_multiset()) =~= v0.to_multiset());
        }
        out.push(x);
        proof {
            assert forall|q: int| 0 <= q < src@.len() implies (#[trigger] src@[q]).rating
                <= out@[out@.len() - 1].rating by {
                assert(src@[q].rating <= src_pre[mi as int].rating);
            }
        }
    }
    proof {
        assert(out@.to_multiset().add(src@.to_multiset()) =~= out@.to_multiset());
    }
    out
}

/// Two sequences with the same multiset hold the same elements.
proof fn lemma_multiset_transfer(
    s: Seq<CulinaryAdventure>,
    t: Seq<CulinaryAdventure>,
    x: CulinaryAdventure,
)
    requires
        t.to_multiset() == s.to_multiset(),
        t.contains(x),
    ensures
        s.contains(x),
{
    assert(t.to_multiset().count(x) > 0);
    assert(s.to_multiset().count(x) > 0);
}

/// A reordering of records with pairwise distinct ids again has pairwise
/// distinct ids.
proof fn lemma_permutation_distinct_ids(s: Seq<CulinaryAdventure>, t: Seq<CulinaryAdventure>)
    requires
        t.to_multiset() == s.to_multiset(),
        distinct_ids(s),
    ensures
        distinct_ids(t),
{
    s.to_multiset_ensures();
    t.to_multiset_ensures();
    assert(s.no_duplicates()) by {
        assert forall|i: int, j: int|
            0 <= i < s.len() && 0 <= j < s.len() && i != j implies s[i] != s[j] by {
            if i < j {
                assert(s[i].id != s[j].id);
            } else {
                assert(s[j].id != s[i].id);
            }
        }
    }
    s.lemma_multiset_has_no_duplicates();
    t.lemma_multiset_has_no_duplicates_conv();
    assert forall|i: int, j: int| 0 <= i < j < t.len() implies (#[trigger] t[i]).id != (
    #[trigger] t[j]).id by {
        if t[i].id == t[j].id {
            assert(t[i] != t[j]);
            assert(t.contains(t[i]));
            assert(t.contains(t[j]));
            lemma_multiset_transfer(s, t, t[i]);
            lemma_multiset_transfer(s, t, t[j]);
            let p1 = choose|p: int| 0 <= p < s.len() && s[p] == t[i];
            let p2 = choose|p: int| 0 <= p < s.len() && s[p] == t[j];
            assert(p1 != p2);
            if p1 < p2 {
                assert(s[p1].id != s[p2].id);
            } else {
                assert(s[p2].id != s[p1].id);
            }
            assert(false);
        }
    }
}

/// Adding a record under an id and looking that id up yields exactly that
/// record: over the map operations the store contracts use, an insert
/// followed by a lookup returns what was inserted.
pub proof fn lemma_add_then_get(m: Map<u64, AdventureView>, id: u64, w: AdventureView)
    ensures
        m.insert(id, w).dom().contains(id),
        m.insert(id, w)[id] == w,
{
}

/// After a delete, the deleted id is no longer live: a remove followed by a
/// lookup of the same id finds nothing.
pub proof fn lemma_delete_then_get(m: Map<u64, AdventureView>, id: u64)
    ensures
        !m.remove(id).dom().contains(id),
{
}

/// The id the next `add` will assign is not live, so ids never repeat, even
/// across deletes: the counter never decreases, deletes leave it in place,
/// and every live id stays at or below it.
pub proof fn lemma_next_id_fresh(s: &AdventureStore)
    requires
        s.wf(),
        s.last_id() < u64::MAX,
    ensures
        !s.records().dom().contains((s.last_id() + 1) as u64),
{
}

/// Every live id is positive and at most the counter; with `add` returning
/// `last_id() + 1` and every operation leaving `last_id()` the same or one
/// higher, ids assigned by successive adds strictly increase.
pub proof fn lemma_live_ids_bounded(s: &AdventureStore, k: u64)
    requires
        s.wf(),
        s.records().dom().contains(k),
    ensures
        1 <= k <= s.last_id(),
{
}

/// A date-filtered listing holds exactly those records of the full listing
/// whose visit date is within the bound, in the same ascending id order.
pub proof fn lemma_before_date_is_subset(
    m: Map<u64, AdventureView>,
    all: Seq<CulinaryAdventure>,
    part: Seq<CulinaryAdventure>,
    d: u64,
)
    requires
        listing(all, m, (|w: AdventureView| true)),
        listing(part, m, (|w: AdventureView| w.visit_date <= d)),
    ensures
        ascending_ids(part),
        forall|i: int|
            #![trigger part[i]]
            0 <= i < part.len() ==> part[i]@.visit_date <= d && exists|q: int|
                0 <= q < all.len() && (#[trigger] all[q]@) == part[i]@,
        forall|q: int|
            #![trigger all[q]]
            0 <= q < all.len() && all[q]@.visit_date <= d ==> exists|i: int|
                0 <= i < part.len() && (#[trigger] part[i]@) == all[q]@,
{
    assert forall|i: int| 0 <= i < part.len() implies (#[trigger] part[i])@.visit_date <= d
        && exists|q: int| 0 <= q < all.len() && (#[trigger] all[q]@) == part[i]@ by {
        let k = part[i].id;
        assert(m.dom().contains(k) && m[k] == part[i]@);
        let q = choose|q: int| 0 <= q < all.len() && (#[trigger] all[q].id) == k;
        assert(all[q]@ == m[k]);
    }
    assert forall|q: int| 0 <= q < all.len() && (#[trigger] all[q])@.visit_date <= d implies exists|
        i: int,
    | 0 <= i < part.len() && (#[trigger] part[i]@) == all[q]@ by {
        let k = all[q].id;
        assert(m.dom().contains(k) && m[k] == all[q]@);
        assert(m[k].visit_date <= d);
        let i = choose|i: int| 0 <= i < part.len() && (#[trigger] part[i].id) == k;
        assert(part[i]@ == m[k]);
    }
}


/// Decodes bytes that the store invariant pins to a known record view.
fn decode_stored(bytes: &Vec<u8>, Ghost(v): Ghost<AdventureView>) -> (r: CulinaryAdventure)
    requires
        bytes@ == encoded(v),
    ensures
        r@ == v,
{
    let _len = bytes.len();
    match decode_adventure(bytes.as_slice()) {
        Some(a) => {
            proof {
                lemma_encoded_injective(a@, v);
            }
            a
        },
        None => {
            proof {
                assert(false);
            }
            CulinaryAdventure {
                id: 0,
                restaurant_name: String::new(),
                dish_name: String::new(),
                rating: 0,
                notes: String::new(),
                visit_date: 0,
            }
        },
    }
}

} // verus!
