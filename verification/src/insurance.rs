//! The insurance registry: policies with monthly premiums, an owner index, a
//! per-owner active-policy cap, an external-reference index, archiving with
//! restore, and storage statistics.
//!
//! Records are kept in one vector in id order: the record of id `i + 1`
//! stands at index `i`, either live (it is a policy) or archived.

use vstd::prelude::*;
use crate::key_map::{distinct_keys, entries_map, lemma_entries_at, KeyMap, RefKey};
use crate::common::{clamp_limit, spec_clamp_limit, CoverageType};
use crate::model::{
    archived_from, external_ref_check, next_due_date, restored_from, valid_external_ref,
    with_ref, without_ref, InsuranceModel, PageModel,
};
use crate::policy::{
    bytes_eq, copy_bytes, copy_opt_bytes, opt_bytes, opt_bytes_eq, ArchivedModel,
    ArchivedPolicy, EventModel, ExternalRefUpdatedEvent, InsuranceError, InsuranceEvent,
    InsurancePolicy, PolicyCreatedEvent, PolicyDeactivatedEvent, PolicyModel, PolicyPage,
    PremiumPaidEvent, StorageStats, MAX_COVERAGE_AMOUNT, MAX_EXTERNAL_REF_LEN,
    MAX_MONTHLY_PREMIUM, MAX_POLICIES_PER_OWNER, PAYMENT_PERIOD_SECONDS,
};

verus! {

/// A stored record: a live policy, or the archived record of one.
pub enum PolicySlot {
    Live(InsurancePolicy),
    Archived(ArchivedPolicy),
}

pub open spec fn slot_id(s: PolicySlot) -> u32 {
    match s {
        PolicySlot::Live(p) => p.id,
        PolicySlot::Archived(a) => a.id,
    }
}

pub open spec fn slot_owner(s: PolicySlot) -> Seq<u8> {
    match s {
        PolicySlot::Live(p) => p.owner@,
        PolicySlot::Archived(a) => a.owner@,
    }
}

pub open spec fn slot_amounts_ok(s: PolicySlot) -> bool {
    match s {
        PolicySlot::Live(p) => 0 < p.monthly_premium <= MAX_MONTHLY_PREMIUM && 0
            < p.coverage_amount <= MAX_COVERAGE_AMOUNT,
        PolicySlot::Archived(a) => 0 < a.monthly_premium <= MAX_MONTHLY_PREMIUM && 0
            < a.coverage_amount <= MAX_COVERAGE_AMOUNT,
    }
}

pub open spec fn live_model(s: PolicySlot) -> PolicyModel {
    match s {
        PolicySlot::Live(p) => p@,
        PolicySlot::Archived(_) => arbitrary(),
    }
}

pub open spec fn archived_model(s: PolicySlot) -> ArchivedModel {
    match s {
        PolicySlot::Archived(a) => a@,
        PolicySlot::Live(_) => arbitrary(),
    }
}

pub open spec fn is_live(s: PolicySlot) -> bool {
    s is Live
}

pub open spec fn live_active(s: PolicySlot) -> bool {
    match s {
        PolicySlot::Live(p) => p.active,
        PolicySlot::Archived(_) => false,
    }
}

pub open spec fn pred_live_active() -> spec_fn(PolicySlot) -> bool {
    |s: PolicySlot| live_active(s)
}

pub open spec fn pred_archived() -> spec_fn(PolicySlot) -> bool {
    |s: PolicySlot| s is Archived
}

pub open spec fn pred_owned_active(owner: Seq<u8>) -> spec_fn(PolicySlot) -> bool {
    |s: PolicySlot| live_active(s) && slot_owner(s) == owner
}

/// How many records satisfy `p`.
pub open spec fn count_slots(s: Seq<PolicySlot>, p: spec_fn(PolicySlot) -> bool) -> nat
    decreases s.len(),
{
    if s.len() == 0 {
        0
    } else {
        count_slots(s.drop_last(), p) + if p(s.last()) {
            1nat
        } else {
            0nat
        }
    }
}

/// The ids of the records that satisfy `p`.
pub open spec fn slot_set(s: Seq<PolicySlot>, p: spec_fn(PolicySlot) -> bool) -> Set<u32> {
    Set::new(|id: u32| 1 <= id <= s.len() && p(s[id - 1]))
}

/// The ids of `owner`'s records, in increasing order.
pub open spec fn ids_of(s: Seq<PolicySlot>, owner: Seq<u8>) -> Seq<u32>
    decreases s.len(),
{
    if s.len() == 0 {
        Seq::empty()
    } else {
        let rest = ids_of(s.drop_last(), owner);
        if slot_owner(s.last()) == owner {
            rest.push(s.len() as u32)
        } else {
            rest
        }
    }
}

pub open spec fn policies_of(s: Seq<PolicySlot>) -> Map<u32, PolicyModel> {
    Map::new(|id: u32| 1 <= id <= s.len() && is_live(s[id - 1]), |id: u32| live_model(s[id - 1]))
}

pub open spec fn archived_of(s: Seq<PolicySlot>) -> Map<u32, ArchivedModel> {
    Map::new(
        |id: u32| 1 <= id <= s.len() && !is_live(s[id - 1]),
        |id: u32| archived_model(s[id - 1]),
    )
}

pub open spec fn ext_of(ext: KeyMap<RefKey, u32>) -> Map<(Seq<u8>, Seq<u8>), u32> {
    ext@
}

pub open spec fn count_or_zero(m: Map<Seq<u8>, u32>, owner: Seq<u8>) -> u32 {
    if m.contains_key(owner) {
        m[owner]
    } else {
        0
    }
}

pub open spec fn ids_or_empty(m: Map<Seq<u8>, Vec<u32>>, owner: Seq<u8>) -> Seq<u32> {
    if m.contains_key(owner) {
        m[owner]@
    } else {
        Seq::empty()
    }
}

/// The registry. Its storage is private; `view` gives its model.
pub struct Insurance {
    slots: Vec<PolicySlot>,
    owner_index: KeyMap<Vec<u8>, Vec<u32>>,
    owner_active: KeyMap<Vec<u8>, u32>,
    ext_index: KeyMap<RefKey, u32>,
    stats: StorageStats,
    pause_admin: Option<Vec<u8>>,
    events: Vec<InsuranceEvent>,
}

impl View for Insurance {
    type V = InsuranceModel;

    closed spec fn view(&self) -> InsuranceModel {
        InsuranceModel {
            policies: policies_of(self.slots@),
            archived: archived_of(self.slots@),
            next_id: self.slots@.len() as u32,
            owner_index: self.owner_index@.map_values(|v: Vec<u32>| v@),
            owner_active: self.owner_active@,
            ext_index: ext_of(self.ext_index),
            stats: self.stats,
            pause_admin: opt_bytes(self.pause_admin),
            events: self.events@.map_values(|e: InsuranceEvent| e@),
        }
    }
}

// ----------------------------------------------------------------------
// Lemmas about the record vector.
// ----------------------------------------------------------------------

proof fn lemma_count_push(s: Seq<PolicySlot>, x: PolicySlot, p: spec_fn(PolicySlot) -> bool)
    ensures
        count_slots(s.push(x), p) == count_slots(s, p) + if p(x) {
            1nat
        } else {
            0nat
        },
{
    assert(s.push(x).drop_last() =~= s);
}

proof fn lemma_count_update(
    s: Seq<PolicySlot>,
    i: int,
    x: PolicySlot,
    p: spec_fn(PolicySlot) -> bool,
)
    requires
        0 <= i < s.len(),
    ensures
        count_slots(s.update(i, x), p) + (if p(s[i]) {
            1nat
        } else {
            0nat
        }) == count_slots(s, p) + if p(x) {
            1nat
        } else {
            0nat
        },
    decreases s.len(),
{
    if i == s.len() - 1 {
        assert(s.update(i, x).drop_last() =~= s.drop_last());
    } else {
        lemma_count_update(s.drop_last(), i, x, p);
        assert(s.update(i, x).drop_last() =~= s.drop_last().update(i, x));
    }
}

proof fn lemma_count_is_card(s: Seq<PolicySlot>, p: spec_fn(PolicySlot) -> bool)
    requires
        s.len() <= u32::MAX,
    ensures
        slot_set(s, p).finite(),
        slot_set(s, p).len() == count_slots(s, p),
        count_slots(s, p) <= s.len(),
    decreases s.len(),
{
    if s.len() == 0 {
        assert(slot_set(s, p) =~= Set::empty());
    } else {
        let t = s.drop_last();
        lemma_count_is_card(t, p);
        let n = s.len() as u32;
        if p(s.last()) {
            assert(slot_set(s, p) =~= slot_set(t, p).insert(n));
        } else {
            assert(slot_set(s, p) =~= slot_set(t, p));
        }
    }
}

proof fn lemma_count_disjoint(
    s: Seq<PolicySlot>,
    p: spec_fn(PolicySlot) -> bool,
    q: spec_fn(PolicySlot) -> bool,
)
    requires
        forall|x: PolicySlot| !(#[trigger] p(x) && q(x)),
    ensures
        count_slots(s, p) + count_slots(s, q) <= s.len(),
    decreases s.len(),
{
    if s.len() > 0 {
        lemma_count_disjoint(s.drop_last(), p, q);
    }
}

proof fn lemma_ids_of_push(s: Seq<PolicySlot>, x: PolicySlot, owner: Seq<u8>)
    ensures
        ids_of(s.push(x), owner) == if slot_owner(x) == owner {
            ids_of(s, owner).push((s.len() + 1) as u32)
        } else {
            ids_of(s, owner)
        },
{
    assert(s.push(x).drop_last() =~= s);
}

proof fn lemma_ids_of_update(s: Seq<PolicySlot>, i: int, x: PolicySlot, owner: Seq<u8>)
    requires
        0 <= i < s.len(),
        slot_owner(x) == slot_owner(s[i]),
    ensures
        ids_of(s.update(i, x), owner) == ids_of(s, owner),
    decreases s.len(),
{
    if i == s.len() - 1 {
        assert(s.update(i, x).drop_last() =~= s.drop_last());
    } else {
        lemma_ids_of_update(s.drop_last(), i, x, owner);
        assert(s.update(i, x).drop_last() =~= s.drop_last().update(i, x));
    }
}

/// The ids listed for an owner increase and are exactly that owner's records.
proof fn lemma_ids_of_props(s: Seq<PolicySlot>, owner: Seq<u8>)
    requires
        s.len() <= u32::MAX,
    ensures
        forall|i: int, j: int|
            0 <= i < j < ids_of(s, owner).len() ==> ids_of(s, owner)[i] < ids_of(s, owner)[j],
        forall|k: int|
            0 <= k < ids_of(s, owner).len() ==> 1 <= #[trigger] ids_of(s, owner)[k] <= s.len(),
        forall|id: u32|
            ids_of(s, owner).contains(id) <==> 1 <= id <= s.len() && slot_owner(s[id - 1])
                == owner,
    decreases s.len(),
{
    if s.len() > 0 {
        let t = s.drop_last();
        lemma_ids_of_props(t, owner);
        let r = ids_of(t, owner);
        assert forall|id: u32|
            ids_of(s, owner).contains(id) <==> 1 <= id <= s.len() && slot_owner(s[id - 1])
                == owner by {
            if slot_owner(s.last()) == owner {
                let n = s.len() as u32;
                if ids_of(s, owner).contains(id) {
                    let k = choose|k: int| 0 <= k < ids_of(s, owner).len() && ids_of(s, owner)[k] == id;
                    if k < r.len() {
                        assert(r[k] == id);
                        assert(r.contains(id));
                    }
                }
                if 1 <= id <= s.len() && slot_owner(s[id - 1]) == owner {
                    if id < n {
                        assert(r.contains(id));
                        let k = choose|k: int| 0 <= k < r.len() && r[k] == id;
                        assert(ids_of(s, owner)[k] == id);
                    } else {
                        assert(ids_of(s, owner)[r.len() as int] == id);
                    }
                }
            }
        }
    }
}

/// The records of one owner that are active are counted by the active
/// records among that owner's ids.
spec fn count_active_ids(s: Seq<PolicySlot>, ids: Seq<u32>) -> nat
    decreases ids.len(),
{
    if ids.len() == 0 {
        0
    } else {
        count_active_ids(s, ids.drop_last()) + if 1 <= ids.last() <= s.len() && live_active(
            s[ids.last() - 1],
        ) {
            1nat
        } else {
            0nat
        }
    }
}

proof fn lemma_count_active_ids_push_slot(s: Seq<PolicySlot>, x: PolicySlot, ids: Seq<u32>)
    requires
        forall|k: int| 0 <= k < ids.len() ==> 1 <= #[trigger] ids[k] <= s.len(),
    ensures
        count_active_ids(s.push(x), ids) == count_active_ids(s, ids),
    decreases ids.len(),
{
    if ids.len() > 0 {
        lemma_count_active_ids_push_slot(s, x, ids.drop_last());
    }
}

proof fn lemma_count_active_ids_prefix(s: Seq<PolicySlot>, ids: Seq<u32>, i: int)
    requires
        0 <= i <= ids.len(),
    ensures
        count_active_ids(s, ids.take(i)) <= count_active_ids(s, ids),
    decreases ids.len() - i,
{
    if i < ids.len() {
        lemma_count_active_ids_prefix(s, ids, i + 1);
        assert(ids.take(i + 1).drop_last() =~= ids.take(i));
    } else {
        assert(ids.take(i) =~= ids);
    }
}

proof fn lemma_count_active_ids_owned(s: Seq<PolicySlot>, owner: Seq<u8>)
    requires
        s.len() <= u32::MAX,
    ensures
        count_active_ids(s, ids_of(s, owner)) == count_slots(s, pred_owned_active(owner)),
    decreases s.len(),
{
    if s.len() > 0 {
        let t = s.drop_last();
        lemma_count_active_ids_owned(t, owner);
        lemma_ids_of_props(t, owner);
        assert(s == t.push(s.last()));
        lemma_count_active_ids_push_slot(t, s.last(), ids_of(t, owner));
        if slot_owner(s.last()) == owner {
            let r = ids_of(t, owner);
            assert(r.push(s.len() as u32).drop_last() =~= r);
        }
    }
}

impl Insurance {
    /// The storage is consistent: records stand at the index of their id,
    /// amounts are in range, the maps have distinct keys, the statistics and
    /// the per-owner counts count what they name, the owner index lists each
    /// owner's records, and the external-reference index only names active
    /// policies that carry the reference.
    pub closed spec fn wf(&self) -> bool {
        let s = self.slots@;
        &&& s.len() <= u32::MAX
        &&& forall|i: int| 0 <= i < s.len() ==> slot_id(#[trigger] s[i]) == i + 1 && slot_amounts_ok(s[i])
        &&& self.owner_index.wf()
        &&& self.owner_active.wf()
        &&& self.ext_index.wf()
        &&& self.stats.active_policies == count_slots(s, pred_live_active())
        &&& self.stats.archived_policies == count_slots(s, pred_archived())
        &&& forall|o: Seq<u8>|
            #[trigger] count_or_zero(self.owner_active@, o) == count_slots(s, pred_owned_active(o))
                && count_or_zero(self.owner_active@, o) <= MAX_POLICIES_PER_OWNER
        &&& forall|o: Seq<u8>| #[trigger] ids_or_empty(self.owner_index@, o) == ids_of(s, o)
        &&& self@.ext_index_consistent()
    }

    proof fn lemma_view_facts(&self)
        requires
            self.wf(),
        ensures
            forall|id: u32|
                #[trigger] self@.policies.contains_key(id) <==> 1 <= id <= self.slots@.len()
                    && is_live(self.slots@[id - 1]),
            forall|id: u32|
                #[trigger] self@.is_active(id) <==> 1 <= id <= self.slots@.len() && live_active(
                    self.slots@[id - 1],
                ),
            forall|o: Seq<u8>| #[trigger] self@.active_count(o) == count_or_zero(self.owner_active@, o),
            forall|o: Seq<u8>| #[trigger] self@.owner_ids(o) == ids_of(self.slots@, o),
            self@.next_id == self.slots@.len(),
    {
        assert forall|o: Seq<u8>| #[trigger] self@.owner_ids(o) == ids_of(self.slots@, o) by {
            assert(ids_or_empty(self.owner_index@, o) == ids_of(self.slots@, o));
        }
        assert forall|id: u32|
            #[trigger] self@.is_active(id) <==> 1 <= id <= self.slots@.len() && live_active(
                self.slots@[id - 1],
            ) by {
            if 1 <= id <= self.slots@.len() && live_active(self.slots@[id - 1]) {
                assert(is_live(self.slots@[id - 1]));
            }
        }
    }

    /// A consistent storage satisfies the registry's invariant.
    pub proof fn lemma_invariant(&self)
        requires
            self.wf(),
        ensures
            self@.inv(),
    {
        let s = self.slots@;
        let m = self@;
        self.lemma_view_facts();
        lemma_count_is_card(s, pred_live_active());
        lemma_count_is_card(s, pred_archived());
        assert(m.active_ids() =~= slot_set(s, pred_live_active()));
        assert(m.archived.dom() =~= slot_set(s, pred_archived()));
        lemma_count_disjoint(s, pred_live_active(), pred_archived());
        assert forall|owner: Seq<u8>|
            #![trigger m.active_count(owner)]
            #![trigger m.owned_active_ids(owner)]
            m.owned_active_ids(owner).finite() && m.active_count(owner)
                == m.owned_active_ids(owner).len() && m.active_count(owner)
                <= MAX_POLICIES_PER_OWNER by {
            lemma_count_is_card(s, pred_owned_active(owner));
            assert(count_or_zero(self.owner_active@, owner) == count_slots(
                s,
                pred_owned_active(owner),
            ));
            assert(m.owned_active_ids(owner) =~= slot_set(s, pred_owned_active(owner)));
        }
        assert forall|owner: Seq<u8>|
            #![trigger m.owner_ids(owner)]
            {
                &&& forall|i: int, j: int|
                    0 <= i < j < m.owner_ids(owner).len() ==> m.owner_ids(owner)[i]
                        < m.owner_ids(owner)[j]
                &&& forall|id: u32|
                    m.owner_ids(owner).contains(id) <==> (m.policies.contains_key(id)
                        && m.policies[id].owner == owner) || (m.archived.contains_key(id)
                        && m.archived[id].owner == owner)
            } by {
            lemma_ids_of_props(s, owner);
        }
        assert forall|id: u32| 1 <= id <= m.next_id implies #[trigger] m.policies.contains_key(id)
            || m.archived.contains_key(id) by {
        }
        assert forall|id: u32| #[trigger] m.policies.contains_key(id) implies 1 <= id <= m.next_id
            && m.policies[id].id == id && !m.archived.contains_key(id) by {
            assert(slot_id(s[id - 1]) == id);
        }
        assert forall|id: u32| #[trigger] m.archived.contains_key(id) implies 1 <= id <= m.next_id
            && m.archived[id].id == id by {
            assert(slot_id(s[id - 1]) == id);
        }
        assert forall|id: u32| #[trigger] m.policies.contains_key(id) implies 0
            < m.policies[id].monthly_premium <= MAX_MONTHLY_PREMIUM && 0
            < m.policies[id].coverage_amount <= MAX_COVERAGE_AMOUNT by {
            assert(slot_amounts_ok(s[id - 1]));
        }
        assert forall|id: u32| #[trigger] m.archived.contains_key(id) implies 0
            < m.archived[id].monthly_premium <= MAX_MONTHLY_PREMIUM && 0
            < m.archived[id].coverage_amount <= MAX_COVERAGE_AMOUNT by {
            assert(slot_amounts_ok(s[id - 1]));
        }
    }

    /// The empty registry.
    pub fn new() -> (r: Insurance)
        ensures
            r.wf(),
            r@ == InsuranceModel::empty(),
    {
        let r = Insurance {
            slots: Vec::new(),
            owner_index: KeyMap::new(),
            owner_active: KeyMap::new(),
            ext_index: KeyMap::new(),
            stats: StorageStats { active_policies: 0, archived_policies: 0, last_updated: 0 },
            pause_admin: None,
            events: Vec::new(),
        };
        assert forall|o: Seq<u8>| #[trigger] ids_or_empty(r.owner_index@, o) == ids_of(r.slots@, o) by {
            assert(ids_or_empty(r.owner_index@, o) =~= Seq::<u32>::empty());
        }
        assert(r@ =~= InsuranceModel::empty());
        r
    }
}


impl Insurance {
    spec fn ext_wf(&self) -> bool {
        self.ext_index.wf()
    }

    spec fn same_slots_and_counts(&self, other: &Insurance) -> bool {
        &&& self.slots == other.slots
        &&& self.owner_index == other.owner_index
        &&& self.owner_active == other.owner_active
        &&& self.stats == other.stats
        &&& self.pause_admin == other.pause_admin
        &&& self.events == other.events
    }

    /// The index of the record of `policy_id`, when one exists.
    fn slot_index(&self, policy_id: u32) -> (r: Option<usize>)
        ensures
            match r {
                Some(i) => 1 <= policy_id <= self.slots@.len() && i == policy_id - 1,
                None => !(1 <= policy_id <= self.slots@.len()),
            },
    {
        if policy_id >= 1 && (policy_id as usize) <= self.slots.len() {
            Some((policy_id - 1) as usize)
        } else {
            None
        }
    }

    /// The index of the live policy `policy_id`, when it exists.
    fn live_index(&self, policy_id: u32) -> (r: Option<usize>)
        requires
            self.wf(),
        ensures
            match r {
                Some(i) => i == policy_id - 1 && self@.policies.contains_key(policy_id)
                    && is_live(self.slots@[i as int]) && 1 <= policy_id <= self.slots@.len(),
                None => !self@.policies.contains_key(policy_id),
            },
    {
        match self.slot_index(policy_id) {
            Some(i) => match &self.slots[i] {
                PolicySlot::Live(_) => Some(i),
                PolicySlot::Archived(_) => None,
            },
            None => None,
        }
    }

    /// The policy id bound to `(owner, ext_ref)` in the external-reference index.
    fn ext_idx_get(&self, owner: &Vec<u8>, ext_ref: &Vec<u8>) -> (r: Option<u32>)
        requires
            self.ext_wf(),
        ensures
            r == (if ext_of(self.ext_index).contains_key((owner@, ext_ref@)) {
                Some(ext_of(self.ext_index)[(owner@, ext_ref@)])
            } else {
                None::<u32>
            }),
    {
        let key = RefKey { owner: copy_bytes(owner), ext_ref: copy_bytes(ext_ref) };
        match self.ext_index.get(&key) {
            Some(id) => Some(*id),
            None => None,
        }
    }

    /// Binds `(owner, ext_ref)` to `policy_id` in the external-reference index.
    fn ext_idx_insert(&mut self, owner: &Vec<u8>, ext_ref: &Vec<u8>, policy_id: u32)
        requires
            old(self).ext_wf(),
        ensures
            final(self).ext_wf(),
            final(self).same_slots_and_counts(old(self)),
            ext_of(final(self).ext_index) == ext_of(old(self).ext_index).insert(
                (owner@, ext_ref@),
                policy_id,
            ),
    {
        let key = RefKey { owner: copy_bytes(owner), ext_ref: copy_bytes(ext_ref) };
        self.ext_index.insert(key, policy_id);
    }

    /// Removes the entry for `(owner, ext_ref)` from the external-reference index.
    fn ext_idx_remove(&mut self, owner: &Vec<u8>, ext_ref: &Vec<u8>)
        requires
            old(self).ext_wf(),
        ensures
            final(self).ext_wf(),
            final(self).same_slots_and_counts(old(self)),
            ext_of(final(self).ext_index) == ext_of(old(self).ext_index).remove(
                (owner@, ext_ref@),
            ),
    {
        let key = RefKey { owner: copy_bytes(owner), ext_ref: copy_bytes(ext_ref) };
        let _ = self.ext_index.remove(&key);
        proof {
            assert(ext_of(self.ext_index) =~= ext_of(old(self).ext_index).remove((owner@, ext_ref@)));
        }
    }

    /// The recorded active-policy count of `owner`.
    fn owner_active_count(&self, owner: &Vec<u8>) -> (r: u32)
        requires
            self.owner_active.wf(),
        ensures
            r == count_or_zero(self.owner_active@, owner@),
    {
        match self.owner_active.get(owner) {
            Some(c) => *c,
            None => 0,
        }
    }

    /// Moves the recorded active count of `owner` by `delta`, saturating at
    /// both ends, and records the result.
    fn adjust_owner_active(&mut self, owner: &Vec<u8>, delta: i32)
        requires
            old(self).owner_active.wf(),
            delta != i32::MIN,
        ensures
            final(self).owner_active.wf(),
            final(self).owner_active@ == old(self).owner_active@.insert(
                owner@,
                if delta >= 0 {
                    count_or_zero(old(self).owner_active@, owner@).saturating_add(delta as u32)
                } else {
                    count_or_zero(old(self).owner_active@, owner@).saturating_sub((-delta) as u32)
                },
            ),
            final(self).slots == old(self).slots,
            final(self).owner_index == old(self).owner_index,
            final(self).ext_index == old(self).ext_index,
            final(self).stats == old(self).stats,
            final(self).pause_admin == old(self).pause_admin,
            final(self).events == old(self).events,
    {
        let current = self.owner_active_count(owner);
        let next = if delta >= 0 {
            current.saturating_add(delta as u32)
        } else {
            current.saturating_sub((-delta) as u32)
        };
        self.owner_active.insert(copy_bytes(owner), next);
    }

    fn read_stats(&self) -> (r: StorageStats)
        ensures
            r == self.stats,
    {
        self.stats
    }

    /// Records `new_admin` as the pause administrator.
    pub fn set_pause_admin(&mut self, caller: Vec<u8>, new_admin: Vec<u8>) -> (r: bool)
        requires
            old(self).wf(),
        ensures
            final(self).wf(),
            (final(self)@, r) == old(self)@.set_pause_admin(new_admin@),
    {
        self.pause_admin = Some(new_admin);
        proof {
            assert(self@ =~= old(self)@.set_pause_admin(new_admin@).0);
        }
        true
    }

    pub fn get_policy(&self, policy_id: u32) -> (r: Option<InsurancePolicy>)
        requires
            self.wf(),
        ensures
            match r {
                Some(p) => self@.get_policy(policy_id) == Some(p@),
                None => self@.get_policy(policy_id) is None,
            },
    {
        match self.slot_index(policy_id) {
            Some(i) => match &self.slots[i] {
                PolicySlot::Live(p) => Some(p.copied()),
                PolicySlot::Archived(_) => None,
            },
            None => None,
        }
    }

    pub fn get_archived_policy(&self, policy_id: u32) -> (r: Option<ArchivedPolicy>)
        requires
            self.wf(),
        ensures
            match r {
                Some(a) => self@.get_archived_policy(policy_id) == Some(a@),
                None => self@.get_archived_policy(policy_id) is None,
            },
    {
        match self.slot_index(policy_id) {
            Some(i) => match &self.slots[i] {
                PolicySlot::Archived(a) => Some(a.copied()),
                PolicySlot::Live(_) => None,
            },
            None => None,
        }
    }

    pub fn get_policy_id_by_external_ref(&self, owner: Vec<u8>, external_ref: Vec<u8>) -> (r: Option<u32>)
        requires
            self.wf(),
        ensures
            r == self@.ext_lookup(owner@, external_ref@),
    {
        self.ext_idx_get(&owner, &external_ref)
    }

    pub fn get_storage_stats(&self) -> (r: StorageStats)
        requires
            self.wf(),
        ensures
            r == self@.stats,
    {
        self.read_stats()
    }
}


impl Insurance {
    /// The registry's page limit: exactly the shared `clamp_limit`, since both
    /// return `spec_clamp_limit(limit)`.
    fn clamp_limit(limit: u32) -> (r: u32)
        ensures
            r == spec_clamp_limit(limit),
    {
        clamp_limit(limit)
    }

    /// Validates that `ext_ref` holds between 1 and `MAX_EXTERNAL_REF_LEN` bytes.
    fn validate_external_ref(ext_ref: &Vec<u8>) -> (r: Result<(), InsuranceError>)
        ensures
            r == external_ref_check(ext_ref@),
    {
        let len = ext_ref.len();
        if len == 0 || len > MAX_EXTERNAL_REF_LEN as usize {
            return Err(InsuranceError::InvalidExternalRef);
        }
        Ok(())
    }

    /// Creates a new active policy for `owner` and returns its id.
    ///
    /// The monthly premium and the coverage amount must be positive and at
    /// most their maxima, the owner must hold fewer than
    /// `MAX_POLICIES_PER_OWNER` active policies, and an external reference,
    /// when given, must be 1 to 128 bytes long and not already bound for this
    /// owner. The first due date is thirty days after `now`.
    pub fn create_policy(
        &mut self,
        owner: Vec<u8>,
        name: Vec<u8>,
        coverage_type: CoverageType,
        monthly_premium: i128,
        coverage_amount: i128,
        external_ref: Option<Vec<u8>>,
        now: u64,
    ) -> (r: Result<u32, InsuranceError>)
        requires
            old(self).wf(),
            old(self)@.create_allocates(owner@, monthly_premium, coverage_amount) ==> old(
                self,
            )@.next_id < u32::MAX,
        ensures
            final(self).wf(),
            (final(self)@, r) == old(self)@.create_policy(
                owner@,
                name@,
                coverage_type,
                monthly_premium,
                coverage_amount,
                opt_bytes(external_ref),
                now,
            ),
    {
        let ghost m0 = self@;
        proof {
            self.lemma_view_facts();
        }
        if monthly_premium <= 0 {
            return Err(InsuranceError::MonthlyPremiumTooLow);
        }
        if monthly_premium > MAX_MONTHLY_PREMIUM {
            return Err(InsuranceError::MonthlyPremiumTooHigh);
        }
        if coverage_amount <= 0 {
            return Err(InsuranceError::CoverageAmountTooLow);
        }
        if coverage_amount > MAX_COVERAGE_AMOUNT {
            return Err(InsuranceError::CoverageAmountTooHigh);
        }
        let active_count = self.owner_active_count(&owner);
        if active_count >= MAX_POLICIES_PER_OWNER {
            return Err(InsuranceError::PolicyLimitExceeded);
        }
        let next_id: u32 = self.slots.len() as u32 + 1;
        if let Some(r) = &external_ref {
            match Self::validate_external_ref(r) {
                Ok(()) => {},
                Err(e) => {
                    return Err(e);
                },
            }
        }
        if let Some(r) = &external_ref {
            if self.ext_idx_get(&owner, r).is_some() {
                return Err(InsuranceError::DuplicateExternalRef);
            }
        }
        let ghost s0 = self.slots@;
        let policy = InsurancePolicy {
            id: next_id,
            owner: copy_bytes(&owner),
            name,
            external_ref: copy_opt_bytes(&external_ref),
            coverage_type,
            monthly_premium,
            coverage_amount,
            active: true,
            next_payment_date: now.saturating_add(PAYMENT_PERIOD_SECONDS),
        };
        let ghost pm = policy@;
        self.slots.push(PolicySlot::Live(policy));
        let ghost s1 = self.slots@;
        let ghost oi0 = self.owner_index@;
        let mut ids = match self.owner_index.remove(&owner) {
            Some(v) => v,
            None => Vec::new(),
        };
        ids.push(next_id);
        self.owner_index.insert(copy_bytes(&owner), ids);
        if let Some(r) = &external_ref {
            self.ext_idx_insert(&owner, r, next_id);
        }
        self.adjust_owner_active(&owner, 1);
        let mut stats = self.read_stats();
        proof {
            lemma_count_is_card(s0, pred_live_active());
        }
        stats.active_policies = stats.active_policies + 1;
        stats.last_updated = now;
        self.stats = stats;
        self.events.push(
            InsuranceEvent::PolicyCreated(
                PolicyCreatedEvent {
                    policy_id: next_id,
                    owner: copy_bytes(&owner),
                    coverage_type,
                    monthly_premium,
                    coverage_amount,
                    timestamp: now,
                },
            ),
        );
        proof {
            let x = s1.last();
            assert(s1 == s0.push(x));
            lemma_count_push(s0, x, pred_live_active());
            lemma_count_push(s0, x, pred_archived());
            assert forall|o: Seq<u8>|
                #[trigger] count_or_zero(self.owner_active@, o) == count_slots(s1, pred_owned_active(o))
                    && count_or_zero(self.owner_active@, o) <= MAX_POLICIES_PER_OWNER by {
                lemma_count_push(s0, x, pred_owned_active(o));
                assert(count_or_zero(m0.owner_active, o) == count_slots(s0, pred_owned_active(o)));
            }
            assert forall|o: Seq<u8>| #[trigger] ids_or_empty(self.owner_index@, o) == ids_of(s1, o) by {
                lemma_ids_of_push(s0, x, o);
                assert(ids_or_empty(oi0, o) == ids_of(s0, o));
                if o == owner@ {
                    assert(ids_or_empty(self.owner_index@, o) =~= ids_of(s0, o).push(next_id));
                }
            }
            assert forall|i: int| 0 <= i < s1.len() implies slot_id(#[trigger] s1[i]) == i + 1
                && slot_amounts_ok(s1[i]) by {
                if i < s0.len() {
                    assert(s1[i] == s0[i]);
                }
            }
            let m1 = self@;
            assert(m1.policies =~= m0.policies.insert(next_id, pm));
            assert(m1.archived =~= m0.archived);
            assert(m1.owner_index =~= m0.owner_index.insert(owner@, m0.owner_ids(owner@).push(next_id)));
            assert(m1.ext_index =~= with_ref(m0.ext_index, owner@, opt_bytes(external_ref), next_id));
            assert(m1.events =~= m0.events.push(
                EventModel::PolicyCreated {
                    policy_id: next_id,
                    owner: owner@,
                    coverage_type,
                    monthly_premium,
                    coverage_amount,
                    timestamp: now,
                },
            ));
            assert forall|k: (Seq<u8>, Seq<u8>)| #[trigger] m1.ext_index.contains_key(k) implies {
                let id = m1.ext_index[k];
                &&& m1.is_active(id)
                &&& m1.policies[id].owner == k.0
                &&& m1.policies[id].external_ref == Some(k.1)
            } by {
                if !(external_ref is Some && k == (owner@, external_ref->0@)) {
                    assert(m0.ext_index.contains_key(k));
                }
            }
            assert(m1 =~= m0.create_policy(
                owner@,
                name@,
                coverage_type,
                monthly_premium,
                coverage_amount,
                opt_bytes(external_ref),
                now,
            ).0);
        }
        Ok(next_id)
    }
}


impl Insurance {
    /// The due date after a payment made at `now`: thirty days after the
    /// payment, saturating at the largest timestamp.
    fn advance_next_payment_date(current_next_date: u64, now: u64) -> (r: u64)
        ensures
            r == next_due_date(current_next_date, now),
    {
        now.saturating_add(PAYMENT_PERIOD_SECONDS)
    }

    fn pay_one(&mut self, caller: &Vec<u8>, policy_id: u32, now: u64) -> (r: bool)
        requires
            old(self).wf(),
        ensures
            final(self).wf(),
            (final(self)@, r) == old(self)@.pay_premium(caller@, policy_id, now),
    {
        let ghost m0 = self@;
        let i = match self.live_index(policy_id) {
            Some(i) => i,
            None => {
                return false;
            },
        };
        let (eligible, amount, current) = match &self.slots[i] {
            PolicySlot::Live(p) => (
                bytes_eq(&p.owner, caller) && p.active,
                p.monthly_premium,
                p.next_payment_date,
            ),
            PolicySlot::Archived(_) => (false, 0, 0),
        };
        if !eligible {
            return false;
        }
        let next = Self::advance_next_payment_date(current, now);
        let ghost s0 = self.slots@;
        match &mut self.slots[i] {
            PolicySlot::Live(p) => {
                p.next_payment_date = next;
            },
            PolicySlot::Archived(_) => {},
        }
        self.events.push(
            InsuranceEvent::PremiumPaid(
                PremiumPaidEvent {
                    policy_id,
                    owner: copy_bytes(caller),
                    amount,
                    next_payment_date: next,
                    timestamp: now,
                },
            ),
        );
        proof {
            let s1 = self.slots@;
            let x = s1[i as int];
            assert(s1 == s0.update(i as int, x));
            lemma_count_update(s0, i as int, x, pred_live_active());
            lemma_count_update(s0, i as int, x, pred_archived());
            assert forall|o: Seq<u8>|
                #[trigger] count_or_zero(self.owner_active@, o) == count_slots(s1, pred_owned_active(o))
                    && count_or_zero(self.owner_active@, o) <= MAX_POLICIES_PER_OWNER by {
                lemma_count_update(s0, i as int, x, pred_owned_active(o));
                assert(count_or_zero(m0.owner_active, o) == count_slots(s0, pred_owned_active(o)));
            }
            assert forall|o: Seq<u8>| #[trigger] ids_or_empty(self.owner_index@, o) == ids_of(s1, o) by {
                lemma_ids_of_update(s0, i as int, x, o);
                assert(ids_or_empty(self.owner_index@, o) == ids_of(s0, o));
            }
            assert forall|j: int| 0 <= j < s1.len() implies slot_id(#[trigger] s1[j]) == j + 1
                && slot_amounts_ok(s1[j]) by {
                if j != i {
                    assert(s1[j] == s0[j]);
                }
            }
            let m1 = self@;
            let p0 = m0.policies[policy_id];
            assert(m1.policies =~= m0.policies.insert(
                policy_id,
                PolicyModel { next_payment_date: next, ..p0 },
            ));
            assert(m1.archived =~= m0.archived);
            assert(m1.events =~= m0.events.push(
                EventModel::PremiumPaid {
                    policy_id,
                    owner: caller@,
                    amount: p0.monthly_premium,
                    next_payment_date: next,
                    timestamp: now,
                },
            ));
            assert(m1 =~= m0.pay_premium(caller@, policy_id, now).0);
        }
        true
    }

    /// Pays one premium of `policy_id` for its owner `caller`: the due date
    /// moves to thirty days after `now` and a `PremiumPaid` event carries it.
    /// Returns `false`, changing nothing, when the policy is not live, not
    /// `caller`'s, or inactive.
    pub fn pay_premium(&mut self, caller: Vec<u8>, policy_id: u32, now: u64) -> (r: bool)
        requires
            old(self).wf(),
        ensures
            final(self).wf(),
            (final(self)@, r) == old(self)@.pay_premium(caller@, policy_id, now),
    {
        self.pay_one(&caller, policy_id, now)
    }

    /// Pays the premiums of the listed policies in order, each as
    /// `pay_premium` would, and returns how many were paid.
    pub fn batch_pay_premiums(&mut self, caller: Vec<u8>, policy_ids: Vec<u32>, now: u64) -> (r: u32)
        requires
            old(self).wf(),
            policy_ids@.len() <= u32::MAX,
        ensures
            final(self).wf(),
            (final(self)@, r) == old(self)@.batch_pay_premiums(caller@, policy_ids@, now),
    {
        let ghost m0 = self@;
        let mut count: u32 = 0;
        let mut i: usize = 0;
        assert(policy_ids@.take(0) =~= Seq::<u32>::empty());
        while i < policy_ids.len()
            invariant
                self.wf(),
                i <= policy_ids@.len(),
                policy_ids@.len() <= u32::MAX,
                count <= i,
                (self@, count) == m0.batch_pay_premiums(caller@, policy_ids@.take(i as int), now),
            decreases policy_ids@.len() - i,
        {
            let id = policy_ids[i];
            let paid = self.pay_one(&caller, id, now);
            if paid {
                count = count + 1;
            }
            proof {
                assert(policy_ids@.take(i as int + 1).drop_last() =~= policy_ids@.take(i as int));
            }
            i = i + 1;
        }
        assert(policy_ids@.take(i as int) =~= policy_ids@);
        count
    }
}


/// A record that only holds a place while another is moved out: an archived
/// record with id 0, empty owner and name, no reference, zero amounts and
/// times, and `Health` coverage.
fn vacant_slot() -> (r: PolicySlot)
    ensures
        r matches PolicySlot::Archived(a) && a@ == (ArchivedModel {
            id: 0,
            owner: Seq::empty(),
            name: Seq::empty(),
            external_ref: None,
            coverage_type: CoverageType::Health,
            monthly_premium: 0,
            coverage_amount: 0,
            archived_at: 0,
            next_payment_date: 0,
        }),
{
    PolicySlot::Archived(
        ArchivedPolicy {
            id: 0,
            owner: Vec::new(),
            name: Vec::new(),
            external_ref: None,
            coverage_type: CoverageType::Health,
            monthly_premium: 0,
            coverage_amount: 0,
            archived_at: 0,
            next_payment_date: 0,
        },
    )
}

impl Insurance {
    /// Binds `ext_ref`, when given, to `policy_id` for `owner`; the reference
    /// must not be bound already.
    fn bind_external_ref(&mut self, owner: &Vec<u8>, policy_id: u32, ext_ref: &Option<Vec<u8>>)
        requires
            old(self).ext_wf(),
            ext_ref matches Some(r) ==> !ext_of(old(self).ext_index).contains_key((owner@, r@)),
        ensures
            final(self).ext_wf(),
            final(self).same_slots_and_counts(old(self)),
            ext_of(final(self).ext_index) == with_ref(
                ext_of(old(self).ext_index),
                owner@,
                opt_bytes(*ext_ref),
                policy_id,
            ),
    {
        if let Some(r) = ext_ref {
            self.ext_idx_insert(owner, r, policy_id);
        }
    }

    /// Removes the binding of `ext_ref`, when given, for `owner`.
    fn unbind_external_ref(&mut self, owner: &Vec<u8>, ext_ref: &Option<Vec<u8>>)
        requires
            old(self).ext_wf(),
        ensures
            final(self).ext_wf(),
            final(self).same_slots_and_counts(old(self)),
            ext_of(final(self).ext_index) == without_ref(
                ext_of(old(self).ext_index),
                owner@,
                opt_bytes(*ext_ref),
            ),
    {
        if let Some(r) = ext_ref {
            self.ext_idx_remove(owner, r);
        }
    }

    /// Sets the external reference of an active policy of `caller` and
    /// re-indexes it. Setting the reference it already has succeeds and
    /// changes nothing; every change emits an `ExternalRefUpdated` event.
    ///
    /// Errors: `PolicyNotFound` when the policy is not live, `Unauthorized`
    /// when `caller` does not own it, `PolicyInactive` when it is inactive,
    /// `InvalidExternalRef` when the new reference is empty or longer than 128
    /// bytes, `DuplicateExternalRef` when it is bound to another policy.
    pub fn try_set_external_ref(
        &mut self,
        caller: Vec<u8>,
        policy_id: u32,
        new_ref: Option<Vec<u8>>,
        now: u64,
    ) -> (r: Result<bool, InsuranceError>)
        requires
            old(self).wf(),
        ensures
            final(self).wf(),
            (final(self)@, r) == old(self)@.try_set_external_ref(
                caller@,
                policy_id,
                opt_bytes(new_ref),
                now,
            ),
    {
        let ghost m0 = self@;
        let i = match self.live_index(policy_id) {
            Some(i) => i,
            None => {
                return Err(InsuranceError::PolicyNotFound);
            },
        };
        let (is_owner, active, same, owner, old_ref) = match &self.slots[i] {
            PolicySlot::Live(p) => (
                bytes_eq(&p.owner, &caller),
                p.active,
                opt_bytes_eq(&new_ref, &p.external_ref),
                copy_bytes(&p.owner),
                copy_opt_bytes(&p.external_ref),
            ),
            PolicySlot::Archived(_) => {
                return Err(InsuranceError::PolicyNotFound);
            },
        };
        if !is_owner {
            return Err(InsuranceError::Unauthorized);
        }
        if !active {
            return Err(InsuranceError::PolicyInactive);
        }
        if same {
            return Ok(true);
        }
        if let Some(r) = &new_ref {
            match Self::validate_external_ref(r) {
                Ok(()) => {},
                Err(e) => {
                    return Err(e);
                },
            }
        }
        if let Some(r) = &new_ref {
            if let Some(existing_id) = self.ext_idx_get(&owner, r) {
                if existing_id != policy_id {
                    return Err(InsuranceError::DuplicateExternalRef);
                }
            }
        }
        let ghost s0 = self.slots@;
        if let Some(r) = &old_ref {
            self.ext_idx_remove(&owner, r);
        }
        if let Some(r) = &new_ref {
            self.ext_idx_insert(&owner, r, policy_id);
        }
        let event_new_ref = copy_opt_bytes(&new_ref);
        match &mut self.slots[i] {
            PolicySlot::Live(p) => {
                p.external_ref = new_ref;
            },
            PolicySlot::Archived(_) => {},
        }
        self.events.push(
            InsuranceEvent::ExternalRefUpdated(
                ExternalRefUpdatedEvent {
                    policy_id,
                    owner: caller,
                    old_external_ref: old_ref,
                    new_external_ref: event_new_ref,
                    timestamp: now,
                },
            ),
        );
        proof {
            let s1 = self.slots@;
            let x = s1[i as int];
            assert(s1 == s0.update(i as int, x));
            lemma_count_update(s0, i as int, x, pred_live_active());
            lemma_count_update(s0, i as int, x, pred_archived());
            assert forall|o: Seq<u8>|
                #[trigger] count_or_zero(self.owner_active@, o) == count_slots(s1, pred_owned_active(o))
                    && count_or_zero(self.owner_active@, o) <= MAX_POLICIES_PER_OWNER by {
                lemma_count_update(s0, i as int, x, pred_owned_active(o));
                assert(count_or_zero(m0.owner_active, o) == count_slots(s0, pred_owned_active(o)));
            }
            assert forall|o: Seq<u8>| #[trigger] ids_or_empty(self.owner_index@, o) == ids_of(s1, o) by {
                lemma_ids_of_update(s0, i as int, x, o);
                assert(ids_or_empty(self.owner_index@, o) == ids_of(s0, o));
            }
            assert forall|j: int| 0 <= j < s1.len() implies slot_id(#[trigger] s1[j]) == j + 1
                && slot_amounts_ok(s1[j]) by {
                if j != i {
                    assert(s1[j] == s0[j]);
                }
            }
            let m1 = self@;
            let p0 = m0.policies[policy_id];
            let nr = opt_bytes(new_ref);
            assert(m1.policies =~= m0.policies.insert(policy_id, PolicyModel { external_ref: nr, ..p0 }));
            assert(m1.archived =~= m0.archived);
            assert(m1.ext_index =~= with_ref(without_ref(m0.ext_index, p0.owner, p0.external_ref), p0.owner, nr, policy_id));
            assert forall|k: (Seq<u8>, Seq<u8>)| #[trigger] m1.ext_index.contains_key(k) implies {
                let id = m1.ext_index[k];
                &&& m1.is_active(id)
                &&& m1.policies[id].owner == k.0
                &&& m1.policies[id].external_ref == Some(k.1)
            } by {
                if !(nr is Some && k == (p0.owner, nr->0)) {
                    assert(m0.ext_index.contains_key(k));
                    assert(m0.ext_index[k] != policy_id);
                }
            }
            assert(m1.events =~= m0.events.push(
                EventModel::ExternalRefUpdated {
                    policy_id,
                    owner: caller@,
                    old_external_ref: p0.external_ref,
                    new_external_ref: nr,
                    timestamp: now,
                },
            ));
            assert(m1 =~= m0.try_set_external_ref(caller@, policy_id, nr, now).0);
        }
        Ok(true)
    }

    /// As `try_set_external_ref`, with every error reported as `false`.
    pub fn set_external_ref(
        &mut self,
        caller: Vec<u8>,
        policy_id: u32,
        external_ref: Option<Vec<u8>>,
        now: u64,
    ) -> (r: bool)
        requires
            old(self).wf(),
        ensures
            final(self).wf(),
            (final(self)@, r) == old(self)@.set_external_ref(
                caller@,
                policy_id,
                opt_bytes(external_ref),
                now,
            ),
    {
        match self.try_set_external_ref(caller, policy_id, external_ref, now) {
            Ok(v) => v,
            Err(_) => false,
        }
    }

    /// Deactivates an active policy of `caller` without removing it: it
    /// becomes inactive, its external reference is unbound, and the owner's
    /// active count and the active statistics drop by one. Deactivating an
    /// inactive policy again returns `Ok(true)` and changes nothing. Returns
    /// `Ok(false)`, changing nothing, when the policy is not live or not
    /// `caller`'s.
    pub fn deactivate_policy(&mut self, caller: Vec<u8>, policy_id: u32, now: u64) -> (r: Result<
        bool,
        InsuranceError,
    >)
        requires
            old(self).wf(),
        ensures
            final(self).wf(),
            (final(self)@, r) == old(self)@.deactivate_policy(caller@, policy_id, now),
    {
        let ghost m0 = self@;
        let i = match self.live_index(policy_id) {
            Some(i) => i,
            None => {
                return Ok(false);
            },
        };
        let (is_owner, was_active, owner, ext_ref) = match &self.slots[i] {
            PolicySlot::Live(p) => (
                bytes_eq(&p.owner, &caller),
                p.active,
                copy_bytes(&p.owner),
                copy_opt_bytes(&p.external_ref),
            ),
            PolicySlot::Archived(_) => {
                return Ok(false);
            },
        };
        if !is_owner {
            return Ok(false);
        }
        if !was_active {
            return Ok(true);
        }
        let ghost s0 = self.slots@;
        proof {
            lemma_count_update(s0, i as int, s0[i as int], pred_live_active());
        }
        match &mut self.slots[i] {
            PolicySlot::Live(p) => {
                p.active = false;
            },
            PolicySlot::Archived(_) => {},
        }
        if let Some(r) = &ext_ref {
            self.ext_idx_remove(&owner, r);
        }
        self.adjust_owner_active(&caller, -1);
        let mut stats = self.read_stats();
        stats.active_policies = stats.active_policies.saturating_sub(1);
        stats.last_updated = now;
        self.stats = stats;
        proof {
            let s1 = self.slots@;
            let x = s1[i as int];
            assert(s1 == s0.update(i as int, x));
            lemma_count_update(s0, i as int, x, pred_live_active());
            lemma_count_update(s0, i as int, x, pred_archived());
            assert forall|o: Seq<u8>|
                #[trigger] count_or_zero(self.owner_active@, o) == count_slots(s1, pred_owned_active(o))
                    && count_or_zero(self.owner_active@, o) <= MAX_POLICIES_PER_OWNER by {
                lemma_count_update(s0, i as int, x, pred_owned_active(o));
                assert(count_or_zero(m0.owner_active, o) == count_slots(s0, pred_owned_active(o)));
            }
            assert forall|o: Seq<u8>| #[trigger] ids_or_empty(self.owner_index@, o) == ids_of(s1, o) by {
                lemma_ids_of_update(s0, i as int, x, o);
                assert(ids_or_empty(self.owner_index@, o) == ids_of(s0, o));
            }
            assert forall|j: int| 0 <= j < s1.len() implies slot_id(#[trigger] s1[j]) == j + 1
                && slot_amounts_ok(s1[j]) by {
                if j != i {
                    assert(s1[j] == s0[j]);
                }
            }
            let m1 = self@;
            let p0 = m0.policies[policy_id];
            assert(m1.policies =~= m0.policies.insert(policy_id, PolicyModel { active: false, ..p0 }));
            assert(m1.archived =~= m0.archived);
            assert(m1.ext_index =~= without_ref(m0.ext_index, p0.owner, p0.external_ref));
            assert forall|k: (Seq<u8>, Seq<u8>)| #[trigger] m1.ext_index.contains_key(k) implies {
                let id = m1.ext_index[k];
                &&& m1.is_active(id)
                &&& m1.policies[id].owner == k.0
                &&& m1.policies[id].external_ref == Some(k.1)
            } by {
                assert(m0.ext_index.contains_key(k));
                assert(m0.ext_index[k] != policy_id);
            }
            assert forall|id: u32| #![trigger m1.policies[id]]
                m1.is_active(id) && m1.policies[id].external_ref is Some implies {
                let k = (m1.policies[id].owner, m1.policies[id].external_ref->0);
                m1.ext_index.contains_key(k) && m1.ext_index[k] == id
            } by {
                assert(m0.is_active(policy_id) && m0.policies[policy_id] == p0);
                assert(id != policy_id);
                assert(m0.policies[id] == m1.policies[id]);
                let k = (m1.policies[id].owner, m1.policies[id].external_ref->0);
                assert(m0.ext_index.contains_key(k) && m0.ext_index[k] == id);
            }
            assert(m1 =~= m0.deactivate_policy(caller@, policy_id, now).0);
        }
        Ok(true)
    }
}


impl Insurance {
    /// Moves a live policy of `caller` to the archive. When it was active, its
    /// external reference is freed, the owner's active count and the active
    /// statistics drop by one and a `PolicyDeactivated` event is emitted; an
    /// inactive policy holds no binding, so the index stays as it is. The
    /// archive count rises by one. Returns `Ok(false)`, changing nothing, when
    /// the policy is not live, and `Err(Unauthorized)` when it is not
    /// `caller`'s.
    pub fn try_archive_policy(&mut self, caller: Vec<u8>, policy_id: u32, now: u64) -> (r: Result<
        bool,
        InsuranceError,
    >)
        requires
            old(self).wf(),
        ensures
            final(self).wf(),
            (final(self)@, r) == old(self)@.try_archive_policy(caller@, policy_id, now),
    {
        let ghost m0 = self@;
        let i = match self.live_index(policy_id) {
            Some(i) => i,
            None => {
                return Ok(false);
            },
        };
        let (is_owner, was_active, owner, ext_ref) = match &self.slots[i] {
            PolicySlot::Live(p) => (
                bytes_eq(&p.owner, &caller),
                p.active,
                copy_bytes(&p.owner),
                copy_opt_bytes(&p.external_ref),
            ),
            PolicySlot::Archived(_) => {
                return Ok(false);
            },
        };
        if !is_owner {
            return Err(InsuranceError::Unauthorized);
        }
        let ghost s0 = self.slots@;
        if was_active {
            self.unbind_external_ref(&owner, &ext_ref);
            self.adjust_owner_active(&caller, -1);
            let mut stats = self.read_stats();
            stats.active_policies = stats.active_policies.saturating_sub(1);
            stats.last_updated = now;
            self.stats = stats;
            self.events.push(
                InsuranceEvent::PolicyDeactivated(
                    PolicyDeactivatedEvent { policy_id, owner: copy_bytes(&caller), timestamp: now },
                ),
            );
        }
        let mut slot = vacant_slot();
        self.slots.set_and_swap(i, &mut slot);
        let record = match slot {
            PolicySlot::Live(p) => ArchivedPolicy {
                id: p.id,
                owner: p.owner,
                name: p.name,
                external_ref: p.external_ref,
                coverage_type: p.coverage_type,
                monthly_premium: p.monthly_premium,
                coverage_amount: p.coverage_amount,
                archived_at: now,
                next_payment_date: p.next_payment_date,
            },
            PolicySlot::Archived(a) => a,
        };
        self.slots.set(i, PolicySlot::Archived(record));
        proof {
            let s1 = self.slots@;
            let x = s1[i as int];
            assert(s1 == s0.update(i as int, x));
            lemma_count_update(s0, i as int, x, pred_archived());
            lemma_count_is_card(s1, pred_archived());
        }
        let mut stats = self.read_stats();
        stats.archived_policies = stats.archived_policies.saturating_add(1);
        stats.last_updated = now;
        self.stats = stats;
        proof {
            let s1 = self.slots@;
            let x = s1[i as int];
            lemma_count_update(s0, i as int, x, pred_live_active());
            assert forall|o: Seq<u8>|
                #[trigger] count_or_zero(self.owner_active@, o) == count_slots(s1, pred_owned_active(o))
                    && count_or_zero(self.owner_active@, o) <= MAX_POLICIES_PER_OWNER by {
                lemma_count_update(s0, i as int, x, pred_owned_active(o));
                assert(count_or_zero(m0.owner_active, o) == count_slots(s0, pred_owned_active(o)));
            }
            assert forall|o: Seq<u8>| #[trigger] ids_or_empty(self.owner_index@, o) == ids_of(s1, o) by {
                lemma_ids_of_update(s0, i as int, x, o);
                assert(ids_or_empty(self.owner_index@, o) == ids_of(s0, o));
            }
            assert forall|j: int| 0 <= j < s1.len() implies slot_id(#[trigger] s1[j]) == j + 1
                && slot_amounts_ok(s1[j]) by {
                if j != i {
                    assert(s1[j] == s0[j]);
                }
            }
            let m1 = self@;
            let p0 = m0.policies[policy_id];
            assert(m1.policies =~= m0.policies.remove(policy_id));
            assert(m1.archived =~= m0.archived.insert(policy_id, archived_from(p0, now)));
            if was_active {
                assert(m1.ext_index =~= without_ref(m0.ext_index, p0.owner, p0.external_ref));
            } else {
                assert(m1.ext_index =~= m0.ext_index);
            }
            assert forall|k: (Seq<u8>, Seq<u8>)| #[trigger] m1.ext_index.contains_key(k) implies {
                let id = m1.ext_index[k];
                &&& m1.is_active(id)
                &&& m1.policies[id].owner == k.0
                &&& m1.policies[id].external_ref == Some(k.1)
            } by {
                assert(m0.ext_index.contains_key(k));
                assert(m0.ext_index[k] != policy_id);
            }
            assert forall|id: u32| #![trigger m1.policies[id]]
                m1.is_active(id) && m1.policies[id].external_ref is Some implies {
                let k = (m1.policies[id].owner, m1.policies[id].external_ref->0);
                m1.ext_index.contains_key(k) && m1.ext_index[k] == id
            } by {
                assert(m0.policies[policy_id] == p0);
                assert(id != policy_id);
                assert(m0.policies[id] == m1.policies[id]);
                let k = (m1.policies[id].owner, m1.policies[id].external_ref->0);
                assert(m0.ext_index.contains_key(k) && m0.ext_index[k] == id);
            }
            if was_active {
                assert(m1.events =~= m0.events.push(
                    EventModel::PolicyDeactivated { policy_id, owner: caller@, timestamp: now },
                ));
            }
            assert(m1 =~= m0.try_archive_policy(caller@, policy_id, now).0);
        }
        Ok(true)
    }

    /// As `try_archive_policy`, with every error reported as `false`.
    pub fn archive_policy(&mut self, caller: Vec<u8>, policy_id: u32, now: u64) -> (r: bool)
        requires
            old(self).wf(),
        ensures
            final(self).wf(),
            (final(self)@, r) == old(self)@.archive_policy(caller@, policy_id, now),
    {
        match self.try_archive_policy(caller, policy_id, now) {
            Ok(v) => v,
            Err(_) => false,
        }
    }

    /// Brings an archived policy of `caller` back as an active policy and
    /// rebinds its external reference. Returns `false`, changing nothing,
    /// when the record is not archived, not `caller`'s, when `caller` already
    /// holds `MAX_POLICIES_PER_OWNER` active policies, or when its reference
    /// is bound to another policy.
    pub fn restore_policy(&mut self, caller: Vec<u8>, policy_id: u32, now: u64) -> (r: bool)
        requires
            old(self).wf(),
        ensures
            final(self).wf(),
            (final(self)@, r) == old(self)@.restore_policy(caller@, policy_id, now),
    {
        let ghost m0 = self@;
        proof {
            self.lemma_view_facts();
        }
        let i = match self.slot_index(policy_id) {
            Some(i) => i,
            None => {
                return false;
            },
        };
        let (is_owner, ext_ref) = match &self.slots[i] {
            PolicySlot::Archived(a) => (bytes_eq(&a.owner, &caller), copy_opt_bytes(&a.external_ref)),
            PolicySlot::Live(_) => {
                return false;
            },
        };
        if !is_owner {
            return false;
        }
        let active_count = self.owner_active_count(&caller);
        if active_count >= MAX_POLICIES_PER_OWNER {
            return false;
        }
        if let Some(r) = &ext_ref {
            if self.ext_idx_get(&caller, r).is_some() {
                return false;
            }
        }
        let ghost s0 = self.slots@;
        self.bind_external_ref(&caller, policy_id, &ext_ref);
        let mut slot = vacant_slot();
        self.slots.set_and_swap(i, &mut slot);
        let policy = match slot {
            PolicySlot::Archived(a) => InsurancePolicy {
                id: a.id,
                owner: a.owner,
                name: a.name,
                external_ref: a.external_ref,
                coverage_type: a.coverage_type,
                monthly_premium: a.monthly_premium,
                coverage_amount: a.coverage_amount,
                active: true,
                next_payment_date: a.next_payment_date,
            },
            PolicySlot::Live(p) => p,
        };
        self.slots.set(i, PolicySlot::Live(policy));
        self.adjust_owner_active(&caller, 1);
        proof {
            let s1 = self.slots@;
            let x = s1[i as int];
            assert(s1 == s0.update(i as int, x));
            lemma_count_update(s0, i as int, x, pred_archived());
            lemma_count_update(s0, i as int, x, pred_live_active());
            lemma_count_disjoint(s0, pred_live_active(), pred_archived());
        }
        let mut stats = self.read_stats();
        stats.archived_policies = stats.archived_policies.saturating_sub(1);
        stats.active_policies = stats.active_policies + 1;
        stats.last_updated = now;
        self.stats = stats;
        proof {
            let s1 = self.slots@;
            let x = s1[i as int];
            assert forall|o: Seq<u8>|
                #[trigger] count_or_zero(self.owner_active@, o) == count_slots(s1, pred_owned_active(o))
                    && count_or_zero(self.owner_active@, o) <= MAX_POLICIES_PER_OWNER by {
                lemma_count_update(s0, i as int, x, pred_owned_active(o));
                assert(count_or_zero(m0.owner_active, o) == count_slots(s0, pred_owned_active(o)));
            }
            assert forall|o: Seq<u8>| #[trigger] ids_or_empty(self.owner_index@, o) == ids_of(s1, o) by {
                lemma_ids_of_update(s0, i as int, x, o);
                assert(ids_or_empty(self.owner_index@, o) == ids_of(s0, o));
            }
            assert forall|j: int| 0 <= j < s1.len() implies slot_id(#[trigger] s1[j]) == j + 1
                && slot_amounts_ok(s1[j]) by {
                if j != i {
                    assert(s1[j] == s0[j]);
                }
            }
            let m1 = self@;
            let a0 = m0.archived[policy_id];
            assert(m1.policies =~= m0.policies.insert(policy_id, restored_from(a0)));
            assert(m1.archived =~= m0.archived.remove(policy_id));
            assert(m1.ext_index =~= with_ref(m0.ext_index, caller@, a0.external_ref, policy_id));
            assert forall|k: (Seq<u8>, Seq<u8>)| #[trigger] m1.ext_index.contains_key(k) implies {
                let id = m1.ext_index[k];
                &&& m1.is_active(id)
                &&& m1.policies[id].owner == k.0
                &&& m1.policies[id].external_ref == Some(k.1)
            } by {
                if !(a0.external_ref is Some && k == (caller@, a0.external_ref->0)) {
                    assert(m0.ext_index.contains_key(k));
                    assert(m0.ext_index[k] != policy_id);
                }
            }
            assert(m1 =~= m0.restore_policy(caller@, policy_id, now).0);
        }
        true
    }
}


/// The sequence increases strictly.
pub open spec fn strictly_increasing(s: Seq<u32>) -> bool {
    forall|a: int, b: int| 0 <= a < b < s.len() ==> s[a] < s[b]
}

/// Two strictly increasing sequences with the same elements are equal.
pub proof fn lemma_increasing_unique(a: Seq<u32>, b: Seq<u32>)
    requires
        strictly_increasing(a),
        strictly_increasing(b),
        forall|x: u32| a.contains(x) <==> b.contains(x),
    ensures
        a == b,
    decreases a.len(),
{
    if a.len() == 0 {
        if b.len() > 0 {
            assert(b.contains(b[0]));
        }
        assert(a =~= b);
    } else {
        assert(a.contains(a[0]));
        assert(b.contains(b[0]));
        let i = choose|i: int| 0 <= i < a.len() && a[i] == b[0];
        let j = choose|j: int| 0 <= j < b.len() && b[j] == a[0];
        assert(a[0] <= a[i]);
        assert(b[0] <= b[j]);
        assert(a[0] == b[0]);
        let ta = a.drop_first();
        let tb = b.drop_first();
        assert forall|x: u32| ta.contains(x) <==> tb.contains(x) by {
            if ta.contains(x) {
                let k = choose|k: int| 0 <= k < ta.len() && ta[k] == x;
                assert(a[k + 1] == x);
                assert(a.contains(x));
                let l = choose|l: int| 0 <= l < b.len() && b[l] == x;
                assert(l != 0);
                assert(tb[l - 1] == x);
            }
            if tb.contains(x) {
                let k = choose|k: int| 0 <= k < tb.len() && tb[k] == x;
                assert(b[k + 1] == x);
                assert(b.contains(x));
                let l = choose|l: int| 0 <= l < a.len() && a[l] == x;
                assert(l != 0);
                assert(ta[l - 1] == x);
            }
        }
        lemma_increasing_unique(ta, tb);
        assert(a.len() == b.len());
        assert forall|k: int| 0 <= k < a.len() implies a[k] == b[k] by {
            if k > 0 {
                assert(a[k] == ta[k - 1]);
                assert(b[k] == tb[k - 1]);
            }
        }
        assert(a =~= b);
    }
}

fn contains_id(v: &Vec<u32>, x: u32) -> (r: bool)
    ensures
        r == v@.contains(x),
{
    let mut i: usize = 0;
    while i < v.len()
        invariant
            i <= v@.len(),
            forall|k: int| 0 <= k < i ==> v@[k] != x,
        decreases v@.len() - i,
    {
        if v[i] == x {
            return true;
        }
        i = i + 1;
    }
    false
}

impl InsuranceModel {
    /// The candidates of a prefix of `ids` begin the candidates of `ids`.
    pub proof fn lemma_candidates_prefix(self, ids: Seq<u32>, cursor: u32, k: int)
        requires
            0 <= k <= ids.len(),
        ensures
            self.page_candidates(ids.take(k), cursor).len() <= self.page_candidates(ids, cursor).len(),
            self.page_candidates(ids, cursor).take(self.page_candidates(ids.take(k), cursor).len() as int)
                == self.page_candidates(ids.take(k), cursor),
        decreases ids.len() - k,
    {
        if k < ids.len() {
            self.lemma_candidates_prefix(ids, cursor, k + 1);
            assert(ids.take(k + 1).drop_last() =~= ids.take(k));
            let c = self.page_candidates(ids.take(k), cursor);
            let c1 = self.page_candidates(ids.take(k + 1), cursor);
            let e = self.page_candidates(ids, cursor);
            assert(e.take(c.len() as int) =~= c1.take(c.len() as int));
            assert(c1.take(c.len() as int) =~= c);
        } else {
            assert(ids.take(k) =~= ids);
            let e = self.page_candidates(ids, cursor);
            assert(e.take(e.len() as int) =~= e);
        }
    }
}

impl Insurance {
    /// The ids in `ids`, each once, in increasing order.
    fn sorted_unique_ids(ids: &Vec<u32>) -> (r: Vec<u32>)
        ensures
            strictly_increasing(r@),
            forall|x: u32| r@.contains(x) <==> ids@.contains(x),
    {
        let mut sorted: Vec<u32> = Vec::new();
        let mut k: usize = 0;
        while k < ids.len()
            invariant
                k <= ids@.len(),
                forall|a: int, b: int| 0 <= a < b < sorted@.len() ==> sorted@[a] != sorted@[b],
                forall|x: u32| sorted@.contains(x) <==> ids@.take(k as int).contains(x),
            decreases ids@.len() - k,
        {
            let id = ids[k];
            let ghost before = sorted@;
            let present = contains_id(&sorted, id);
            if !present {
                sorted.push(id);
                proof {
                    assert forall|x: u32| sorted@.contains(x) <==> before.contains(x) || x == id by {
                        if sorted@.contains(x) && x != id {
                            let a = choose|a: int| 0 <= a < sorted@.len() && sorted@[a] == x;
                            assert(before[a] == x);
                        }
                        if before.contains(x) {
                            let a = choose|a: int| 0 <= a < before.len() && before[a] == x;
                            assert(sorted@[a] == x);
                        }
                        if x == id {
                            assert(sorted@[before.len() as int] == id);
                        }
                    }
                }
            }
            proof {
                let t0 = ids@.take(k as int);
                let t1 = ids@.take(k as int + 1);
                assert(t1 =~= t0.push(id));
                assert forall|x: u32| t1.contains(x) <==> t0.contains(x) || x == id by {
                    if t1.contains(x) && x != id {
                        let a = choose|a: int| 0 <= a < t1.len() && t1[a] == x;
                        assert(t0[a] == x);
                    }
                    if t0.contains(x) {
                        let a = choose|a: int| 0 <= a < t0.len() && t0[a] == x;
                        assert(t1[a] == x);
                    }
                    if x == id {
                        assert(t1[k as int] == id);
                    }
                }
                assert forall|x: u32| sorted@.contains(x) <==> t1.contains(x) by {
                    assert(before.contains(x) <==> t0.contains(x));
                    assert(t1.contains(x) <==> t0.contains(x) || x == id);
                    if present {
                        assert(before.contains(id));
                        assert(sorted@ == before);
                    } else {
                        assert(sorted@.contains(x) <==> before.contains(x) || x == id);
                    }
                }
            }
            k = k + 1;
        }
        assert(ids@.take(k as int) =~= ids@);
        let len = sorted.len();
        let mut i: usize = 0;
        while i < len
            invariant
                sorted@.len() == len,
                i <= len,
                forall|a: int, b: int| 0 <= a < b < len ==> sorted@[a] != sorted@[b],
                forall|x: u32| sorted@.contains(x) <==> ids@.contains(x),
                forall|a: int, b: int| len - i <= a < b < len ==> sorted@[a] <= sorted@[b],
                forall|a: int, b: int| 0 <= a < len - i <= b < len ==> sorted@[a] <= sorted@[b],
            decreases len - i,
        {
            let mut j: usize = 0;
            while j < len - 1 - i
                invariant
                    sorted@.len() == len,
                    i < len,
                    j <= len - 1 - i,
                    forall|a: int, b: int| 0 <= a < b < len ==> sorted@[a] != sorted@[b],
                    forall|x: u32| sorted@.contains(x) <==> ids@.contains(x),
                    forall|a: int, b: int| len - i <= a < b < len ==> sorted@[a] <= sorted@[b],
                    forall|a: int, b: int| 0 <= a < len - i <= b < len ==> sorted@[a] <= sorted@[b],
                    forall|a: int| 0 <= a <= j ==> sorted@[a] <= sorted@[j as int],
                decreases len - 1 - i - j,
            {
                let x = sorted[j];
                let y = sorted[j + 1];
                if x > y {
                    let ghost before = sorted@;
                    sorted.set(j, y);
                    sorted.set(j + 1, x);
                    proof {
                        let s = sorted@;
                        assert(s == before.update(j as int, y).update(j as int + 1, x));
                        assert forall|z: u32| s.contains(z) <==> before.contains(z) by {
                            if s.contains(z) {
                                let a = choose|a: int| 0 <= a < s.len() && s[a] == z;
                                if a == j {
                                    assert(before[j as int + 1] == z);
                                } else if a == j + 1 {
                                    assert(before[j as int] == z);
                                } else {
                                    assert(before[a] == z);
                                }
                            }
                            if before.contains(z) {
                                let a = choose|a: int| 0 <= a < before.len() && before[a] == z;
                                if a == j {
                                    assert(s[j as int + 1] == z);
                                } else if a == j + 1 {
                                    assert(s[j as int] == z);
                                } else {
                                    assert(s[a] == z);
                                }
                            }
                        }
                        assert forall|a: int, b: int| 0 <= a < b < len implies s[a] != s[b] by {
                            let oa = if a == j { j + 1 } else if a == j + 1 { j as int } else { a };
                            let ob = if b == j { j + 1 } else if b == j + 1 { j as int } else { b };
                            assert(s[a] == before[oa]);
                            assert(s[b] == before[ob]);
                        }
                        assert forall|a: int, b: int| 0 <= a < len - i <= b < len implies s[a] <= s[b] by {
                            let oa = if a == j { j + 1 } else if a == j + 1 { j as int } else { a };
                            assert(s[a] == before[oa]);
                            assert(s[b] == before[b]);
                        }
                        assert forall|a: int| 0 <= a <= j + 1 implies #[trigger] s[a] <= s[j as int + 1] by {
                            if a < j {
                                assert(s[a] == before[a]);
                            }
                        }
                    }
                }
                j = j + 1;
            }
            i = i + 1;
        }
        proof {
            assert forall|a: int, b: int| 0 <= a < b < sorted@.len() implies sorted@[a] < sorted@[b] by {
                assert(sorted@[a] <= sorted@[b]);
                assert(sorted@[a] != sorted@[b]);
            }
        }
        sorted
    }

    /// Total monthly premium of `owner`'s active policies.
    pub fn get_total_monthly_premium(&self, owner: Vec<u8>) -> (r: i128)
        requires
            self.wf(),
        ensures
            r as int == self@.get_total_monthly_premium(owner@),
            0 <= r <= MAX_MONTHLY_PREMIUM * MAX_POLICIES_PER_OWNER,
    {
        let ghost m = self@;
        let ghost s = self.slots@;
        proof {
            self.lemma_view_facts();
            lemma_count_active_ids_owned(s, owner@);
            lemma_ids_of_props(s, owner@);
            assert(count_or_zero(self.owner_active@, owner@) == count_slots(s, pred_owned_active(owner@)));
            assert(ids_or_empty(self.owner_index@, owner@) == ids_of(s, owner@));
        }
        let empty: Vec<u32> = Vec::new();
        let ids: &Vec<u32> = match self.owner_index.get(&owner) {
            Some(v) => v,
            None => &empty,
        };
        assert(ids@ == m.owner_ids(owner@));
        let mut total: i128 = 0;
        let mut k: usize = 0;
        while k < ids.len()
            invariant
                self.wf(),
                m == self@,
                s == self.slots@,
                k <= ids@.len(),
                ids@ == ids_of(s, owner@),
                forall|q: int| 0 <= q < ids@.len() ==> 1 <= #[trigger] ids@[q] <= s.len(),
                count_active_ids(s, ids@) <= MAX_POLICIES_PER_OWNER,
                total as int == m.premium_total(ids@.take(k as int)),
                0 <= total <= MAX_MONTHLY_PREMIUM * count_active_ids(s, ids@.take(k as int)),
                forall|id: u32|
                    #[trigger] m.is_active(id) <==> 1 <= id <= s.len() && live_active(s[id - 1]),
            decreases ids@.len() - k,
        {
            let id = ids[k];
            proof {
                assert(ids@.take(k as int + 1).drop_last() =~= ids@.take(k as int));
                lemma_count_active_ids_prefix(s, ids@, k as int + 1);
            }
            match self.slot_index(id) {
                Some(j) => match &self.slots[j] {
                    PolicySlot::Live(p) => {
                        if p.active {
                            proof {
                                assert(slot_amounts_ok(s[j as int]));
                            }
                            total = total + p.monthly_premium;
                        }
                    },
                    PolicySlot::Archived(_) => {},
                },
                None => {},
            }
            k = k + 1;
        }
        assert(ids@.take(k as int) =~= ids@);
        total
    }

    /// A page of `owner`'s active policies with ids above `cursor`, in
    /// increasing id order and at most `clamp_limit(limit)` long. The cursor
    /// handed back is the last returned id when more active policies follow,
    /// and `0` at the end of the list.
    pub fn get_active_policies(&self, owner: Vec<u8>, cursor: u32, limit: u32) -> (r: PolicyPage)
        requires
            self.wf(),
        ensures
            r.items@.map_values(|p: InsurancePolicy| p@) == self@.get_active_policies(
                owner@,
                cursor,
                limit,
            ).items,
            r.next_cursor == self@.get_active_policies(owner@, cursor, limit).next_cursor,
            r.count == self@.get_active_policies(owner@, cursor, limit).count,
            r.count == r.items@.len(),
    {
        let ghost m = self@;
        let ghost s = self.slots@;
        let lim = Self::clamp_limit(limit);
        proof {
            self.lemma_view_facts();
            lemma_ids_of_props(s, owner@);
            assert(ids_or_empty(self.owner_index@, owner@) == ids_of(s, owner@));
        }
        let empty: Vec<u32> = Vec::new();
        let ids: &Vec<u32> = match self.owner_index.get(&owner) {
            Some(v) => v,
            None => &empty,
        };
        let sorted_ids = Self::sorted_unique_ids(ids);
        proof {
            lemma_increasing_unique(sorted_ids@, ids@);
        }
        let ghost all = sorted_ids@;
        let mut items: Vec<InsurancePolicy> = Vec::new();
        let mut next_cursor: u32 = 0;
        let mut has_more = false;
        let mut k: usize = 0;
        while k < sorted_ids.len() && !has_more
            invariant
                self.wf(),
                m == self@,
                s == self.slots@,
                all == sorted_ids@,
                all == m.owner_ids(owner@),
                k <= all.len(),
                1 <= lim <= 50,
                lim == spec_clamp_limit(limit),
                forall|id: u32|
                    #[trigger] m.is_active(id) <==> 1 <= id <= s.len() && live_active(s[id - 1]),
                !has_more ==> {
                    let c = m.page_candidates(all.take(k as int), cursor);
                    &&& c.len() <= lim
                    &&& items@.map_values(|p: InsurancePolicy| p@) == c.map_values(
                        |id: u32| m.policies[id],
                    )
                    &&& next_cursor == if c.len() > 0 {
                        c.last()
                    } else {
                        0u32
                    }
                },
                has_more ==> {
                    let c = m.page_candidates(all.take(k as int), cursor);
                    &&& c.len() == lim + 1
                    &&& items@.map_values(|p: InsurancePolicy| p@) == c.take(lim as int).map_values(
                        |id: u32| m.policies[id],
                    )
                    &&& next_cursor == c[lim - 1]
                },
            decreases all.len() - k,
        {
            let id = sorted_ids[k];
            let ghost c0 = m.page_candidates(all.take(k as int), cursor);
            proof {
                assert(all.take(k as int + 1).drop_last() =~= all.take(k as int));
                assert(all.take(k as int + 1).last() == id);
            }
            if id > cursor {
                match self.slot_index(id) {
                    Some(j) => match &self.slots[j] {
                        PolicySlot::Live(p) => {
                            if p.active {
                                if items.len() < lim as usize {
                                    let ghost iv = items@;
                                    items.push(p.copied());
                                    next_cursor = id;
                                    proof {
                                        assert(m.policies[id] == p@);
                                        assert(items@.map_values(|p: InsurancePolicy| p@) =~= iv.map_values(
                                            |p: InsurancePolicy| p@,
                                        ).push(p@));
                                        assert(c0.push(id).map_values(|id: u32| m.policies[id])
                                            =~= c0.map_values(|id: u32| m.policies[id]).push(
                                            m.policies[id],
                                        ));
                                    }
                                } else {
                                    has_more = true;
                                    proof {
                                        assert(items@.map_values(|p: InsurancePolicy| p@).len() == c0.map_values(
                                            |id: u32| m.policies[id],
                                        ).len());
                                        assert(c0.len() == lim);
                                        assert(m.is_active(id));
                                        assert(c0.push(id).take(lim as int) =~= c0);
                                    }
                                }
                            }
                        },
                        PolicySlot::Archived(_) => {},
                    },
                    None => {},
                }
            }
            k = k + 1;
        }
        let ghost cands = m.page_candidates(all, cursor);
        proof {
            m.lemma_candidates_prefix(all, cursor, k as int);
            if !has_more {
                assert(all.take(k as int) =~= all);
                assert(cands.take(cands.len() as int) =~= cands);
            }
        }
        let out_cursor = if has_more {
            next_cursor
        } else {
            0
        };
        let count = items.len() as u32;
        PolicyPage { items, next_cursor: out_cursor, count }
    }
}


impl Insurance {
    /// Hands out the events emitted so far, oldest first, and forgets them.
    pub fn take_events(&mut self) -> (r: Vec<InsuranceEvent>)
        requires
            old(self).wf(),
        ensures
            final(self).wf(),
            r@.map_values(|e: InsuranceEvent| e@) == old(self)@.events,
            final(self)@ == (InsuranceModel { events: Seq::empty(), ..old(self)@ }),
    {
        let mut out: Vec<InsuranceEvent> = Vec::new();
        std::mem::swap(&mut self.events, &mut out);
        proof {
            assert(self@ =~= (InsuranceModel { events: Seq::empty(), ..old(self)@ }));
        }
        out
    }
}


/// The registry's storage as plain values, in the shape a host keeps it
/// between calls: the records in id order (the record of id `i + 1` at index
/// `i`), the owner index, the per-owner active counts and the
/// external-reference index as parallel lists of keys and values, the
/// statistics and the pause administrator.
pub struct InsuranceParts {
    pub records: Vec<PolicySlot>,
    pub owner_index_keys: Vec<Vec<u8>>,
    pub owner_index_ids: Vec<Vec<u32>>,
    pub owner_active_keys: Vec<Vec<u8>>,
    pub owner_active_counts: Vec<u32>,
    pub ext_index_keys: Vec<RefKey>,
    pub ext_index_ids: Vec<u32>,
    pub stats: StorageStats,
    pub pause_admin: Option<Vec<u8>>,
}

impl InsuranceParts {
    /// The registry state that the parts describe, with no pending events.
    pub open spec fn model(&self) -> InsuranceModel {
        InsuranceModel {
            policies: policies_of(self.records@),
            archived: archived_of(self.records@),
            next_id: self.records@.len() as u32,
            owner_index: entries_map(self.owner_index_keys@, self.owner_index_ids@).map_values(
                |v: Vec<u32>| v@,
            ),
            owner_active: entries_map(self.owner_active_keys@, self.owner_active_counts@),
            ext_index: entries_map(self.ext_index_keys@, self.ext_index_ids@),
            stats: self.stats,
            pause_admin: opt_bytes(self.pause_admin),
            events: Seq::empty(),
        }
    }

    /// The parts describe a consistent registry: each key list matches its
    /// value list and holds no key twice, there are at most `u32::MAX`
    /// records, and the described state satisfies the registry's invariant.
    pub open spec fn well_formed(&self) -> bool {
        &&& self.records@.len() <= u32::MAX
        &&& self.owner_index_keys@.len() == self.owner_index_ids@.len()
        &&& distinct_keys(self.owner_index_keys@)
        &&& self.owner_active_keys@.len() == self.owner_active_counts@.len()
        &&& distinct_keys(self.owner_active_keys@)
        &&& self.ext_index_keys@.len() == self.ext_index_ids@.len()
        &&& distinct_keys(self.ext_index_keys@)
        &&& self.model().inv()
    }
}

proof fn lemma_count_none(s: Seq<PolicySlot>, p: spec_fn(PolicySlot) -> bool)
    requires
        forall|i: int| 0 <= i < s.len() ==> !p(#[trigger] s[i]),
    ensures
        count_slots(s, p) == 0,
    decreases s.len(),
{
    if s.len() > 0 {
        lemma_count_none(s.drop_last(), p);
    }
}

proof fn lemma_ids_none(s: Seq<PolicySlot>, owner: Seq<u8>)
    requires
        forall|i: int| 0 <= i < s.len() ==> slot_owner(#[trigger] s[i]) != owner,
    ensures
        ids_of(s, owner) == Seq::<u32>::empty(),
    decreases s.len(),
{
    if s.len() > 0 {
        lemma_ids_none(s.drop_last(), owner);
    }
}

/// What a well-formed set of parts guarantees of each of its lists.
proof fn lemma_parts_facts(p: InsuranceParts)
    requires
        p.well_formed(),
    ensures
        forall|i: int|
            0 <= i < p.records@.len() ==> slot_id(#[trigger] p.records@[i]) == i + 1 && slot_amounts_ok(
                p.records@[i],
            ),
        p.stats.active_policies == count_slots(p.records@, pred_live_active()),
        p.stats.archived_policies == count_slots(p.records@, pred_archived()),
        forall|j: int|
            0 <= j < p.owner_active_keys@.len() ==> #[trigger] p.owner_active_counts@[j] == count_slots(
                p.records@,
                pred_owned_active(p.owner_active_keys@[j]@),
            ) && p.owner_active_counts@[j] <= MAX_POLICIES_PER_OWNER,
        forall|i: int|
            0 <= i < p.records@.len() && live_active(#[trigger] p.records@[i]) ==> entries_map(
                p.owner_active_keys@,
                p.owner_active_counts@,
            ).contains_key(slot_owner(p.records@[i])),
        forall|j: int|
            0 <= j < p.owner_index_keys@.len() ==> (#[trigger] p.owner_index_ids@[j])@ == ids_of(
                p.records@,
                p.owner_index_keys@[j]@,
            ),
        forall|i: int|
            0 <= i < p.records@.len() ==> entries_map(p.owner_index_keys@, p.owner_index_ids@).contains_key(
                slot_owner(#[trigger] p.records@[i]),
            ),
        forall|j: int|
            0 <= j < p.ext_index_keys@.len() ==> {
                let id = #[trigger] p.ext_index_ids@[j];
                let k = p.ext_index_keys@[j];
                &&& 1 <= id <= p.records@.len()
                &&& live_active(p.records@[id - 1])
                &&& slot_owner(p.records@[id - 1]) == k.owner@
                &&& live_model(p.records@[id - 1]).external_ref == Some(k.ext_ref@)
            },
        forall|i: int|
            0 <= i < p.records@.len() && live_active(#[trigger] p.records@[i]) && live_model(
                p.records@[i],
            ).external_ref is Some ==> {
                let k = (slot_owner(p.records@[i]), live_model(p.records@[i]).external_ref->0);
                &&& entries_map(p.ext_index_keys@, p.ext_index_ids@).contains_key(k)
                &&& entries_map(p.ext_index_keys@, p.ext_index_ids@)[k] == i + 1
            },
{
    let s = p.records@;
    let m = p.model();
    assert forall|i: int| 0 <= i < s.len() implies slot_id(#[trigger] s[i]) == i + 1
        && slot_amounts_ok(s[i]) by {
        let id = (i + 1) as u32;
        assert(s[id - 1] == s[i]);
        assert(m.policies.contains_key(id) || m.archived.contains_key(id));
    }
    lemma_count_is_card(s, pred_live_active());
    lemma_count_is_card(s, pred_archived());
    assert(m.active_ids() =~= slot_set(s, pred_live_active()));
    assert(m.archived.dom() =~= slot_set(s, pred_archived()));
    assert forall|j: int| 0 <= j < p.owner_active_keys@.len() implies #[trigger] p.owner_active_counts@[j]
        == count_slots(s, pred_owned_active(p.owner_active_keys@[j]@)) && p.owner_active_counts@[j]
        <= MAX_POLICIES_PER_OWNER by {
        let o = p.owner_active_keys@[j]@;
        lemma_entries_at(p.owner_active_keys@, p.owner_active_counts@, j);
        lemma_count_is_card(s, pred_owned_active(o));
        assert(m.owned_active_ids(o) =~= slot_set(s, pred_owned_active(o)));
        assert(m.active_count(o) == p.owner_active_counts@[j]);
    }
    assert forall|i: int| 0 <= i < s.len() && live_active(#[trigger] s[i]) implies entries_map(
        p.owner_active_keys@,
        p.owner_active_counts@,
    ).contains_key(slot_owner(s[i])) by {
        let o = slot_owner(s[i]);
        let id = (i + 1) as u32;
        assert(s[id - 1] == s[i]);
        assert(m.owned_active_ids(o).contains(id));
        if m.owned_active_ids(o).len() == 0 {
            m.owned_active_ids(o).lemma_len0_is_empty();
        }
        assert(m.active_count(o) >= 1);
    }
    assert forall|j: int| 0 <= j < p.owner_index_keys@.len() implies (#[trigger] p.owner_index_ids@[j])@
        == ids_of(s, p.owner_index_keys@[j]@) by {
        let o = p.owner_index_keys@[j]@;
        lemma_entries_at(p.owner_index_keys@, p.owner_index_ids@, j);
        assert(m.owner_ids(o) == p.owner_index_ids@[j]@);
        lemma_ids_of_props(s, o);
        assert forall|id: u32| m.owner_ids(o).contains(id) <==> ids_of(s, o).contains(id) by {
            if 1 <= id <= s.len() && slot_owner(s[id - 1]) == o {
                assert(m.policies.contains_key(id) || m.archived.contains_key(id));
            }
        }
        lemma_increasing_unique(m.owner_ids(o), ids_of(s, o));
    }
    assert forall|i: int| 0 <= i < s.len() implies entries_map(p.owner_index_keys@, p.owner_index_ids@).contains_key(
        slot_owner(#[trigger] s[i]),
    ) by {
        let o = slot_owner(s[i]);
        let id = (i + 1) as u32;
        assert(s[id - 1] == s[i]);
        assert(m.policies.contains_key(id) || m.archived.contains_key(id));
        assert(m.owner_ids(o).contains(id));
    }
    assert forall|j: int| 0 <= j < p.ext_index_keys@.len() implies {
        let id = #[trigger] p.ext_index_ids@[j];
        let k = p.ext_index_keys@[j];
        &&& 1 <= id <= s.len()
        &&& live_active(s[id - 1])
        &&& slot_owner(s[id - 1]) == k.owner@
        &&& live_model(s[id - 1]).external_ref == Some(k.ext_ref@)
    } by {
        lemma_entries_at(p.ext_index_keys@, p.ext_index_ids@, j);
        let k = p.ext_index_keys@[j];
        assert(m.ext_index.contains_key(k@));
    }
    assert forall|i: int|
        0 <= i < s.len() && live_active(#[trigger] s[i]) && live_model(s[i]).external_ref is Some implies {
        let k = (slot_owner(s[i]), live_model(s[i]).external_ref->0);
        &&& m.ext_index.contains_key(k)
        &&& m.ext_index[k] == i + 1
    } by {
        let id = (i + 1) as u32;
        assert(s[id - 1] == s[i]);
        assert(m.policies.contains_key(id));
        assert(m.policies[id] == live_model(s[i]));
        assert(m.is_active(id));
    }
}

fn count_active_records(records: &Vec<PolicySlot>) -> (r: usize)
    ensures
        r == count_slots(records@, pred_live_active()),
{
    let mut c: usize = 0;
    let mut i: usize = 0;
    while i < records.len()
        invariant
            i <= records@.len(),
            c <= i,
            c == count_slots(records@.take(i as int), pred_live_active()),
        decreases records@.len() - i,
    {
        let hit = match &records[i] {
            PolicySlot::Live(p) => p.active,
            PolicySlot::Archived(_) => false,
        };
        if hit {
            c = c + 1;
        }
        assert(records@.take(i as int + 1).drop_last() =~= records@.take(i as int));
        i = i + 1;
    }
    assert(records@.take(i as int) =~= records@);
    c
}

fn count_archived_records(records: &Vec<PolicySlot>) -> (r: usize)
    ensures
        r == count_slots(records@, pred_archived()),
{
    let mut c: usize = 0;
    let mut i: usize = 0;
    while i < records.len()
        invariant
            i <= records@.len(),
            c <= i,
            c == count_slots(records@.take(i as int), pred_archived()),
        decreases records@.len() - i,
    {
        let hit = match &records[i] {
            PolicySlot::Live(_) => false,
            PolicySlot::Archived(_) => true,
        };
        if hit {
            c = c + 1;
        }
        assert(records@.take(i as int + 1).drop_last() =~= records@.take(i as int));
        i = i + 1;
    }
    assert(records@.take(i as int) =~= records@);
    c
}

fn count_owned_active_records(records: &Vec<PolicySlot>, owner: &Vec<u8>) -> (r: usize)
    ensures
        r == count_slots(records@, pred_owned_active(owner@)),
{
    let mut c: usize = 0;
    let mut i: usize = 0;
    while i < records.len()
        invariant
            i <= records@.len(),
            c <= i,
            c == count_slots(records@.take(i as int), pred_owned_active(owner@)),
        decreases records@.len() - i,
    {
        let hit = match &records[i] {
            PolicySlot::Live(p) => p.active && bytes_eq(&p.owner, owner),
            PolicySlot::Archived(_) => false,
        };
        if hit {
            c = c + 1;
        }
        assert(records@.take(i as int + 1).drop_last() =~= records@.take(i as int));
        i = i + 1;
    }
    assert(records@.take(i as int) =~= records@);
    c
}

fn ids_for_owner(records: &Vec<PolicySlot>, owner: &Vec<u8>) -> (r: Vec<u32>)
    requires
        records@.len() <= u32::MAX,
    ensures
        r@ == ids_of(records@, owner@),
{
    let mut out: Vec<u32> = Vec::new();
    let mut i: usize = 0;
    while i < records.len()
        invariant
            i <= records@.len(),
            records@.len() <= u32::MAX,
            out@ == ids_of(records@.take(i as int), owner@),
        decreases records@.len() - i,
    {
        let hit = match &records[i] {
            PolicySlot::Live(p) => bytes_eq(&p.owner, owner),
            PolicySlot::Archived(a) => bytes_eq(&a.owner, owner),
        };
        if hit {
            out.push((i + 1) as u32);
        }
        assert(records@.take(i as int + 1).drop_last() =~= records@.take(i as int));
        i = i + 1;
    }
    assert(records@.take(i as int) =~= records@);
    out
}

fn slot_owner_of(slot: &PolicySlot) -> (r: &Vec<u8>)
    ensures
        r@ == slot_owner(*slot),
{
    match slot {
        PolicySlot::Live(p) => &p.owner,
        PolicySlot::Archived(a) => &a.owner,
    }
}

impl Insurance {
    /// Rebuilds the registry from its stored parts; `None` exactly when the
    /// parts do not describe a consistent registry.
    #[verifier::loop_isolation(false)]
    pub fn from_parts(parts: InsuranceParts) -> (r: Option<Insurance>)
        ensures
            r is Some <==> parts.well_formed(),
            r matches Some(ins) ==> ins.wf() && ins@ == parts.model(),
    {
        let ghost p = parts;
        let ghost good = parts.well_formed();
        proof {
            if good {
                lemma_parts_facts(parts);
            }
        }
        let InsuranceParts {
            records,
            owner_index_keys,
            owner_index_ids,
            owner_active_keys,
            owner_active_counts,
            ext_index_keys,
            ext_index_ids,
            stats,
            pause_admin,
        } = parts;
        let ghost s = records@;
        if records.len() > u32::MAX as usize {
            return None;
        }
        if owner_active_keys.len() != owner_active_counts.len() || owner_index_keys.len()
            != owner_index_ids.len() || ext_index_keys.len() != ext_index_ids.len() {
            return None;
        }
        let n = records.len();
        let mut i: usize = 0;
        while i < n
            invariant
                s == records@,
                n == s.len(),
                i <= n,
                forall|k: int| 0 <= k < i ==> slot_id(#[trigger] s[k]) == k + 1 && slot_amounts_ok(s[k]),
            decreases n - i,
        {
            let ok = match &records[i] {
                PolicySlot::Live(q) => q.id as usize == i + 1 && 0 < q.monthly_premium
                    && q.monthly_premium <= MAX_MONTHLY_PREMIUM && 0 < q.coverage_amount
                    && q.coverage_amount <= MAX_COVERAGE_AMOUNT,
                PolicySlot::Archived(a) => a.id as usize == i + 1 && 0 < a.monthly_premium
                    && a.monthly_premium <= MAX_MONTHLY_PREMIUM && 0 < a.coverage_amount
                    && a.coverage_amount <= MAX_COVERAGE_AMOUNT,
            };
            if !ok {
                return None;
            }
            i = i + 1;
        }
        if stats.active_policies as usize != count_active_records(&records)
            || stats.archived_policies as usize != count_archived_records(&records) {
            return None;
        }
        let mut j: usize = 0;
        while j < owner_active_keys.len()
            invariant
                s == records@,
                s.len() <= u32::MAX,
                j <= owner_active_keys@.len(),
                owner_active_keys@.len() == owner_active_counts@.len(),
                owner_active_keys@ == p.owner_active_keys@,
                owner_active_counts@ == p.owner_active_counts@,
                forall|k: int|
                    0 <= k < j ==> #[trigger] owner_active_counts@[k] == count_slots(
                        s,
                        pred_owned_active(owner_active_keys@[k]@),
                    ) && owner_active_counts@[k] <= MAX_POLICIES_PER_OWNER,
            decreases owner_active_keys@.len() - j,
        {
            let c = count_owned_active_records(&records, &owner_active_keys[j]);
            if c != owner_active_counts[j] as usize || owner_active_counts[j] > MAX_POLICIES_PER_OWNER {
                return None;
            }
            j = j + 1;
        }
        let mut j: usize = 0;
        while j < owner_index_keys.len()
            invariant
                s == records@,
                s.len() <= u32::MAX,
                j <= owner_index_keys@.len(),
                owner_index_keys@.len() == owner_index_ids@.len(),
                owner_index_keys@ == p.owner_index_keys@,
                owner_index_ids@ == p.owner_index_ids@,
                forall|k: int|
                    0 <= k < j ==> (#[trigger] owner_index_ids@[k])@ == ids_of(s, owner_index_keys@[k]@),
            decreases owner_index_keys@.len() - j,
        {
            let ids = ids_for_owner(&records, &owner_index_keys[j]);
            if !(ids == owner_index_ids[j]) {
                proof {
                    assert(!(ids@ =~= owner_index_ids@[j as int]@));
                }
                return None;
            }
            proof {
                assert(ids@ =~= owner_index_ids@[j as int]@);
            }
            j = j + 1;
        }
        let mut j: usize = 0;
        while j < ext_index_keys.len()
            invariant
                s == records@,
                n == s.len(),
                j <= ext_index_keys@.len(),
                ext_index_keys@.len() == ext_index_ids@.len(),
                ext_index_keys@ == p.ext_index_keys@,
                ext_index_ids@ == p.ext_index_ids@,
                forall|k: int|
                    0 <= k < j ==> {
                        let id = #[trigger] ext_index_ids@[k];
                        let key = ext_index_keys@[k];
                        &&& 1 <= id <= s.len()
                        &&& live_active(s[id - 1])
                        &&& slot_owner(s[id - 1]) == key.owner@
                        &&& live_model(s[id - 1]).external_ref == Some(key.ext_ref@)
                    },
            decreases ext_index_keys@.len() - j,
        {
            let id = ext_index_ids[j];
            let key = &ext_index_keys[j];
            if id < 1 || id as usize > n {
                return None;
            }
            let ok = match &records[(id - 1) as usize] {
                PolicySlot::Live(q) => q.active && bytes_eq(&q.owner, &key.owner) && match &q.external_ref {
                    Some(r) => bytes_eq(r, &key.ext_ref),
                    None => false,
                },
                PolicySlot::Archived(_) => false,
            };
            if !ok {
                return None;
            }
            j = j + 1;
        }
        let owner_active = match KeyMap::from_entries(owner_active_keys, owner_active_counts) {
            Some(m) => m,
            None => {
                return None;
            },
        };
        let owner_index = match KeyMap::from_entries(owner_index_keys, owner_index_ids) {
            Some(m) => m,
            None => {
                return None;
            },
        };
        let ext_index = match KeyMap::from_entries(ext_index_keys, ext_index_ids) {
            Some(m) => m,
            None => {
                return None;
            },
        };
        let mut i: usize = 0;
        while i < n
            invariant
                s == records@,
                n == s.len(),
                i <= n,
                owner_active.wf(),
                owner_index.wf(),
                owner_active@ == entries_map(p.owner_active_keys@, p.owner_active_counts@),
                owner_index@ == entries_map(p.owner_index_keys@, p.owner_index_ids@),
                forall|k: int|
                    0 <= k < i ==> owner_index@.contains_key(slot_owner(#[trigger] s[k])) && (live_active(
                        s[k],
                    ) ==> owner_active@.contains_key(slot_owner(s[k]))),
                ext_index.wf(),
                ext_index@ == entries_map(p.ext_index_keys@, p.ext_index_ids@),
                forall|k: int|
                    0 <= k < i && live_active(#[trigger] s[k]) && live_model(s[k]).external_ref is Some
                        ==> {
                        let key = (slot_owner(s[k]), live_model(s[k]).external_ref->0);
                        &&& ext_index@.contains_key(key)
                        &&& ext_index@[key] == k + 1
                    },
            decreases n - i,
        {
            let owner = slot_owner_of(&records[i]);
            if !owner_index.contains_key(owner) {
                return None;
            }
            let active = match &records[i] {
                PolicySlot::Live(q) => q.active,
                PolicySlot::Archived(_) => false,
            };
            if active && !owner_active.contains_key(owner) {
                return None;
            }
            if let PolicySlot::Live(q) = &records[i] {
                if q.active {
                    if let Some(r) = &q.external_ref {
                        let key = RefKey { owner: copy_bytes(&q.owner), ext_ref: copy_bytes(r) };
                        match ext_index.get(&key) {
                            Some(v) => {
                                if *v as usize != i + 1 {
                                    return None;
                                }
                            },
                            None => {
                                return None;
                            },
                        }
                    }
                }
            }
            i = i + 1;
        }
        let ins = Insurance {
            slots: records,
            owner_index,
            owner_active,
            ext_index,
            stats,
            pause_admin,
            events: Vec::new(),
        };
        proof {
            let ks = p.owner_active_keys@;
            let cs = p.owner_active_counts@;
            assert forall|o: Seq<u8>|
                #[trigger] count_or_zero(ins.owner_active@, o) == count_slots(s, pred_owned_active(o))
                    && count_or_zero(ins.owner_active@, o) <= MAX_POLICIES_PER_OWNER by {
                if ins.owner_active@.contains_key(o) {
                    let j = choose|j: int| 0 <= j < ks.len() && #[trigger] ks[j]@ == o;
                    lemma_entries_at(ks, cs, j);
                } else {
                    assert forall|k: int| 0 <= k < s.len() implies !pred_owned_active(o)(#[trigger] s[k]) by {
                    }
                    lemma_count_none(s, pred_owned_active(o));
                }
            }
            let ki = p.owner_index_keys@;
            let vi = p.owner_index_ids@;
            assert forall|o: Seq<u8>| #[trigger] ids_or_empty(ins.owner_index@, o) == ids_of(s, o) by {
                if ins.owner_index@.contains_key(o) {
                    let j = choose|j: int| 0 <= j < ki.len() && #[trigger] ki[j]@ == o;
                    lemma_entries_at(ki, vi, j);
                } else {
                    lemma_ids_none(s, o);
                }
            }
            let ke = p.ext_index_keys@;
            let ve = p.ext_index_ids@;
            let mi = ins@;
            assert forall|k: (Seq<u8>, Seq<u8>)| #[trigger] mi.ext_index.contains_key(k) implies {
                let id = mi.ext_index[k];
                &&& mi.is_active(id)
                &&& mi.policies[id].owner == k.0
                &&& mi.policies[id].external_ref == Some(k.1)
            } by {
                let j = choose|j: int| 0 <= j < ke.len() && #[trigger] ke[j]@ == k;
                lemma_entries_at(ke, ve, j);
                let id = ve[j];
                assert(s[id - 1] is Live);
            }
            assert forall|id: u32| #![trigger mi.policies[id]]
                mi.is_active(id) && mi.policies[id].external_ref is Some implies {
                let k = (mi.policies[id].owner, mi.policies[id].external_ref->0);
                mi.ext_index.contains_key(k) && mi.ext_index[k] == id
            } by {
                let k = id - 1;
                assert(live_active(s[k]));
            }
            assert(ins.wf());
            ins.lemma_invariant();
            assert(ins@ =~= p.model());
        }
        Some(ins)
    }

    /// The storage as plain parts; rebuilding from them gives back this
    /// registry without its pending events.
    pub fn into_parts(self) -> (r: InsuranceParts)
        requires
            self.wf(),
        ensures
            r.well_formed(),
            r.model() == (InsuranceModel { events: Seq::empty(), ..self@ }),
    {
        proof {
            self.lemma_invariant();
        }
        let ghost m = self@;
        let Insurance { slots, owner_index, owner_active, ext_index, stats, pause_admin, events: _ } =
            self;
        let (owner_index_keys, owner_index_ids) = owner_index.into_entries();
        let (owner_active_keys, owner_active_counts) = owner_active.into_entries();
        let (ext_index_keys, ext_index_ids) = ext_index.into_entries();
        let r = InsuranceParts {
            records: slots,
            owner_index_keys,
            owner_index_ids,
            owner_active_keys,
            owner_active_counts,
            ext_index_keys,
            ext_index_ids,
            stats,
            pause_admin,
        };
        proof {
            let m2 = InsuranceModel { events: Seq::empty(), ..m };
            assert(r.model() =~= m2);
            assert(m2.ids_consistent());
            assert(m2.amounts_bounded());
            assert(m2.active_ids() =~= m.active_ids());
            assert(m2.stats_consistent());
            assert forall|o: Seq<u8>|
                #![trigger m2.active_count(o)]
                #![trigger m2.owned_active_ids(o)]
                m2.owned_active_ids(o).finite() && m2.active_count(o) == m2.owned_active_ids(o).len()
                    && m2.active_count(o) <= MAX_POLICIES_PER_OWNER by {
                assert(m2.owned_active_ids(o) =~= m.owned_active_ids(o));
                assert(m.active_count(o) == m.owned_active_ids(o).len());
            }
            assert(m2.active_counts_consistent());
            assert(m2.ext_index_consistent());
            assert forall|o: Seq<u8>|
                #![trigger m2.owner_ids(o)]
                {
                    &&& forall|i: int, j: int|
                        0 <= i < j < m2.owner_ids(o).len() ==> m2.owner_ids(o)[i] < m2.owner_ids(o)[j]
                    &&& forall|id: u32|
                        m2.owner_ids(o).contains(id) <==> (m2.policies.contains_key(id)
                            && m2.policies[id].owner == o) || (m2.archived.contains_key(id)
                            && m2.archived[id].owner == o)
                } by {
                assert(m2.owner_ids(o) == m.owner_ids(o));
            }
            assert(m2.owner_index_consistent());
        }
        r
    }
}


impl Insurance {
    /// The last policy id handed out.
    pub fn next_id(&self) -> (r: u32)
        requires
            self.wf(),
        ensures
            r == self@.next_id,
    {
        self.slots.len() as u32
    }

    /// Whether `create_policy` with these arguments gets past its amount and
    /// cap checks and so allocates a new id; a caller tests this together
    /// with `next_id` before creating, since ids end at `u32::MAX`.
    pub fn create_allocates(&self, owner: &Vec<u8>, monthly_premium: i128, coverage_amount: i128) -> (r: bool)
        requires
            self.wf(),
        ensures
            r == self@.create_allocates(owner@, monthly_premium, coverage_amount),
    {
        proof {
            self.lemma_view_facts();
        }
        0 < monthly_premium && monthly_premium <= MAX_MONTHLY_PREMIUM && 0 < coverage_amount
            && coverage_amount <= MAX_COVERAGE_AMOUNT && self.owner_active_count(owner)
            < MAX_POLICIES_PER_OWNER
    }
}

} // verus!
