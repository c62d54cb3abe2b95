//! The mathematical model of the registry's storage and the meaning of each
//! of its operations as a function from state (and inputs) to the next state
//! and the result.

use vstd::prelude::*;
use crate::common::{spec_clamp_limit, CoverageType};
use crate::policy::{
    ArchivedModel, EventModel, InsuranceError, PolicyModel, StorageStats, MAX_COVERAGE_AMOUNT,
    MAX_EXTERNAL_REF_LEN, MAX_MONTHLY_PREMIUM, MAX_POLICIES_PER_OWNER, PAYMENT_PERIOD_SECONDS,
};

verus! {

/// The registry's storage: live policies by id, archived policies by id, the
/// last id handed out, each owner's list of policy ids, each owner's count of
/// active policies, the external-reference index from (owner, reference) to
/// policy id, the statistics, the pause administrator, and every event emitted
/// so far, oldest first.
#[verifier::ext_equal]
pub struct InsuranceModel {
    pub policies: Map<u32, PolicyModel>,
    pub archived: Map<u32, ArchivedModel>,
    pub next_id: u32,
    pub owner_index: Map<Seq<u8>, Seq<u32>>,
    pub owner_active: Map<Seq<u8>, u32>,
    pub ext_index: Map<(Seq<u8>, Seq<u8>), u32>,
    pub stats: StorageStats,
    pub pause_admin: Option<Seq<u8>>,
    pub events: Seq<EventModel>,
}

/// The next due date after a payment made at `now`: one period after the
/// payment time, saturating at the largest timestamp. The previous due date
/// does not enter into it.
pub open spec fn next_due_date(current_next_date: u64, now: u64) -> u64 {
    now.saturating_add(PAYMENT_PERIOD_SECONDS)
}

/// An external reference must hold between 1 and `MAX_EXTERNAL_REF_LEN` bytes.
pub open spec fn valid_external_ref(r: Seq<u8>) -> bool {
    1 <= r.len() <= MAX_EXTERNAL_REF_LEN
}

/// The result of `validate_external_ref`.
pub open spec fn external_ref_check(r: Seq<u8>) -> Result<(), InsuranceError> {
    if valid_external_ref(r) {
        Ok(())
    } else {
        Err(InsuranceError::InvalidExternalRef)
    }
}

pub open spec fn archived_from(p: PolicyModel, archived_at: u64) -> ArchivedModel {
    ArchivedModel {
        id: p.id,
        owner: p.owner,
        name: p.name,
        external_ref: p.external_ref,
        coverage_type: p.coverage_type,
        monthly_premium: p.monthly_premium,
        coverage_amount: p.coverage_amount,
        archived_at,
        next_payment_date: p.next_payment_date,
    }
}

pub open spec fn restored_from(a: ArchivedModel) -> PolicyModel {
    PolicyModel {
        id: a.id,
        owner: a.owner,
        name: a.name,
        external_ref: a.external_ref,
        coverage_type: a.coverage_type,
        monthly_premium: a.monthly_premium,
        coverage_amount: a.coverage_amount,
        active: true,
        next_payment_date: a.next_payment_date,
    }
}

/// The map with the entry for `(owner, r)` removed when `r` is present.
pub open spec fn without_ref(
    idx: Map<(Seq<u8>, Seq<u8>), u32>,
    owner: Seq<u8>,
    r: Option<Seq<u8>>,
) -> Map<(Seq<u8>, Seq<u8>), u32> {
    match r {
        Some(r) => idx.remove((owner, r)),
        None => idx,
    }
}

/// The map with `(owner, r)` bound to `id` when `r` is present.
pub open spec fn with_ref(
    idx: Map<(Seq<u8>, Seq<u8>), u32>,
    owner: Seq<u8>,
    r: Option<Seq<u8>>,
    id: u32,
) -> Map<(Seq<u8>, Seq<u8>), u32> {
    match r {
        Some(r) => idx.insert((owner, r), id),
        None => idx,
    }
}

/// One page of active policies: the selected ids, whether more follow, and
/// the cursor handed back.
pub struct PageModel {
    pub items: Seq<PolicyModel>,
    pub next_cursor: u32,
    pub count: u32,
}

impl InsuranceModel {
    /// The empty registry.
    pub open spec fn empty() -> InsuranceModel {
        InsuranceModel {
            policies: Map::empty(),
            archived: Map::empty(),
            next_id: 0,
            owner_index: Map::empty(),
            owner_active: Map::empty(),
            ext_index: Map::empty(),
            stats: StorageStats { active_policies: 0, archived_policies: 0, last_updated: 0 },
            pause_admin: None,
            events: Seq::empty(),
        }
    }

    /// The ids listed for `owner`, or none.
    pub open spec fn owner_ids(self, owner: Seq<u8>) -> Seq<u32> {
        if self.owner_index.contains_key(owner) {
            self.owner_index[owner]
        } else {
            Seq::empty()
        }
    }

    /// The recorded active count of `owner`, zero when none is recorded.
    pub open spec fn active_count(self, owner: Seq<u8>) -> u32 {
        if self.owner_active.contains_key(owner) {
            self.owner_active[owner]
        } else {
            0
        }
    }

    pub open spec fn ext_lookup(self, owner: Seq<u8>, r: Seq<u8>) -> Option<u32> {
        if self.ext_index.contains_key((owner, r)) {
            Some(self.ext_index[(owner, r)])
        } else {
            None
        }
    }

    /// `id` names a live, active policy.
    pub open spec fn is_active(self, id: u32) -> bool {
        self.policies.contains_key(id) && self.policies[id].active
    }

    pub open spec fn active_ids(self) -> Set<u32> {
        Set::new(|id: u32| self.is_active(id))
    }

    pub open spec fn owned_active_ids(self, owner: Seq<u8>) -> Set<u32> {
        Set::new(|id: u32| self.is_active(id) && self.policies[id].owner == owner)
    }

    // ------------------------------------------------------------------
    // The invariant that every reachable state satisfies.
    // ------------------------------------------------------------------

    /// Every id from 1 to `next_id` names exactly one record, live or
    /// archived, whose own id is that id; no other id names one.
    pub open spec fn ids_consistent(self) -> bool {
        &&& forall|id: u32| #[trigger] self.policies.contains_key(id) ==> 1 <= id <= self.next_id
            && self.policies[id].id == id && !self.archived.contains_key(id)
        &&& forall|id: u32| #[trigger] self.archived.contains_key(id) ==> 1 <= id <= self.next_id
            && self.archived[id].id == id
        &&& forall|id: u32|
            1 <= id <= self.next_id ==> #[trigger] self.policies.contains_key(id)
                || self.archived.contains_key(id)
    }

    /// Premiums and coverage amounts of all records lie in their ranges.
    pub open spec fn amounts_bounded(self) -> bool {
        &&& forall|id: u32| #[trigger] self.policies.contains_key(id) ==> 0
            < self.policies[id].monthly_premium <= MAX_MONTHLY_PREMIUM && 0
            < self.policies[id].coverage_amount <= MAX_COVERAGE_AMOUNT
        &&& forall|id: u32| #[trigger] self.archived.contains_key(id) ==> 0
            < self.archived[id].monthly_premium <= MAX_MONTHLY_PREMIUM && 0
            < self.archived[id].coverage_amount <= MAX_COVERAGE_AMOUNT
    }

    /// The statistics count the active and the archived policies.
    pub open spec fn stats_consistent(self) -> bool {
        &&& self.active_ids().finite()
        &&& self.stats.active_policies == self.active_ids().len()
        &&& self.archived.dom().finite()
        &&& self.stats.archived_policies == self.archived.dom().len()
        &&& self.stats.active_policies + self.stats.archived_policies <= self.next_id
    }

    /// The recorded active count of every owner is the number of that owner's
    /// active policies, and never more than `MAX_POLICIES_PER_OWNER`.
    pub open spec fn active_counts_consistent(self) -> bool {
        forall|owner: Seq<u8>|
            #![trigger self.active_count(owner)]
            #![trigger self.owned_active_ids(owner)]
            self.owned_active_ids(owner).finite() && self.active_count(owner)
                == self.owned_active_ids(owner).len() && self.active_count(owner)
                <= MAX_POLICIES_PER_OWNER
    }

    /// The external-reference index maps exactly the (owner, reference) pairs
    /// of the active policies to their ids: every entry names an active policy
    /// of that owner that carries that reference, and every active policy that
    /// carries a reference is found under it.
    pub open spec fn ext_index_consistent(self) -> bool {
        &&& forall|k: (Seq<u8>, Seq<u8>)| #[trigger]
            self.ext_index.contains_key(k) ==> {
                let id = self.ext_index[k];
                &&& self.is_active(id)
                &&& self.policies[id].owner == k.0
                &&& self.policies[id].external_ref == Some(k.1)
            }
        &&& forall|id: u32| #![trigger self.policies[id]]
            self.is_active(id) && self.policies[id].external_ref is Some ==> {
                let k = (self.policies[id].owner, self.policies[id].external_ref->0);
                self.ext_index.contains_key(k) && self.ext_index[k] == id
            }
    }

    /// The owner index lists, in increasing order, exactly the ids of the
    /// records (live or archived) of each owner.
    pub open spec fn owner_index_consistent(self) -> bool {
        forall|owner: Seq<u8>|
            #![trigger self.owner_ids(owner)]
            {
                &&& forall|i: int, j: int|
                    0 <= i < j < self.owner_ids(owner).len() ==> self.owner_ids(owner)[i]
                        < self.owner_ids(owner)[j]
                &&& forall|id: u32|
                    self.owner_ids(owner).contains(id) <==> (self.policies.contains_key(id)
                        && self.policies[id].owner == owner) || (self.archived.contains_key(id)
                        && self.archived[id].owner == owner)
            }
    }

    pub open spec fn inv(self) -> bool {
        &&& self.ids_consistent()
        &&& self.amounts_bounded()
        &&& self.stats_consistent()
        &&& self.active_counts_consistent()
        &&& self.ext_index_consistent()
        &&& self.owner_index_consistent()
    }

    // ------------------------------------------------------------------
    // Operations.
    // ------------------------------------------------------------------

    pub open spec fn set_pause_admin(self, new_admin: Seq<u8>) -> (InsuranceModel, bool) {
        (InsuranceModel { pause_admin: Some(new_admin), ..self }, true)
    }

    /// `create_policy` gets past its amount and cap checks, so it allocates an id.
    pub open spec fn create_allocates(
        self,
        owner: Seq<u8>,
        monthly_premium: i128,
        coverage_amount: i128,
    ) -> bool {
        &&& 0 < monthly_premium <= MAX_MONTHLY_PREMIUM
        &&& 0 < coverage_amount <= MAX_COVERAGE_AMOUNT
        &&& self.active_count(owner) < MAX_POLICIES_PER_OWNER
    }

    pub open spec fn create_policy(
        self,
        owner: Seq<u8>,
        name: Seq<u8>,
        coverage_type: CoverageType,
        monthly_premium: i128,
        coverage_amount: i128,
        external_ref: Option<Seq<u8>>,
        now: u64,
    ) -> (InsuranceModel, Result<u32, InsuranceError>) {
        if monthly_premium <= 0 {
            (self, Err(InsuranceError::MonthlyPremiumTooLow))
        } else if monthly_premium > MAX_MONTHLY_PREMIUM {
            (self, Err(InsuranceError::MonthlyPremiumTooHigh))
        } else if coverage_amount <= 0 {
            (self, Err(InsuranceError::CoverageAmountTooLow))
        } else if coverage_amount > MAX_COVERAGE_AMOUNT {
            (self, Err(InsuranceError::CoverageAmountTooHigh))
        } else if self.active_count(owner) >= MAX_POLICIES_PER_OWNER {
            (self, Err(InsuranceError::PolicyLimitExceeded))
        } else if external_ref matches Some(r) && !valid_external_ref(r) {
            (self, Err(InsuranceError::InvalidExternalRef))
        } else if external_ref matches Some(r) && self.ext_index.contains_key((owner, r)) {
            (self, Err(InsuranceError::DuplicateExternalRef))
        } else {
            let id = (self.next_id + 1) as u32;
            let policy = PolicyModel {
                id,
                owner,
                name,
                external_ref,
                coverage_type,
                monthly_premium,
                coverage_amount,
                active: true,
                next_payment_date: now.saturating_add(PAYMENT_PERIOD_SECONDS),
            };
            (
                InsuranceModel {
                    policies: self.policies.insert(id, policy),
                    next_id: id,
                    owner_index: self.owner_index.insert(owner, self.owner_ids(owner).push(id)),
                    owner_active: self.owner_active.insert(
                        owner,
                        (self.active_count(owner) + 1) as u32,
                    ),
                    ext_index: with_ref(self.ext_index, owner, external_ref, id),
                    stats: StorageStats {
                        active_policies: (self.stats.active_policies + 1) as u32,
                        archived_policies: self.stats.archived_policies,
                        last_updated: now,
                    },
                    events: self.events.push(
                        EventModel::PolicyCreated {
                            policy_id: id,
                            owner,
                            coverage_type,
                            monthly_premium,
                            coverage_amount,
                            timestamp: now,
                        },
                    ),
                    ..self
                },
                Ok(id),
            )
        }
    }

    pub open spec fn get_policy(self, id: u32) -> Option<PolicyModel> {
        if self.policies.contains_key(id) {
            Some(self.policies[id])
        } else {
            None
        }
    }

    pub open spec fn get_archived_policy(self, id: u32) -> Option<ArchivedModel> {
        if self.archived.contains_key(id) {
            Some(self.archived[id])
        } else {
            None
        }
    }

    pub open spec fn try_set_external_ref(
        self,
        caller: Seq<u8>,
        id: u32,
        new_ref: Option<Seq<u8>>,
        now: u64,
    ) -> (InsuranceModel, Result<bool, InsuranceError>) {
        if !self.policies.contains_key(id) {
            (self, Err(InsuranceError::PolicyNotFound))
        } else {
            let p = self.policies[id];
            if p.owner != caller {
                (self, Err(InsuranceError::Unauthorized))
            } else if !p.active {
                (self, Err(InsuranceError::PolicyInactive))
            } else if new_ref == p.external_ref {
                (self, Ok(true))
            } else if new_ref matches Some(r) && !valid_external_ref(r) {
                (self, Err(InsuranceError::InvalidExternalRef))
            } else if new_ref matches Some(r) && self.ext_index.contains_key((p.owner, r))
                && self.ext_index[(p.owner, r)] != id {
                (self, Err(InsuranceError::DuplicateExternalRef))
            } else {
                (
                    InsuranceModel {
                        policies: self.policies.insert(id, PolicyModel { external_ref: new_ref, ..p }),
                        ext_index: with_ref(
                            without_ref(self.ext_index, p.owner, p.external_ref),
                            p.owner,
                            new_ref,
                            id,
                        ),
                        events: self.events.push(
                            EventModel::ExternalRefUpdated {
                                policy_id: id,
                                owner: caller,
                                old_external_ref: p.external_ref,
                                new_external_ref: new_ref,
                                timestamp: now,
                            },
                        ),
                        ..self
                    },
                    Ok(true),
                )
            }
        }
    }

    pub open spec fn set_external_ref(
        self,
        caller: Seq<u8>,
        id: u32,
        new_ref: Option<Seq<u8>>,
        now: u64,
    ) -> (InsuranceModel, bool) {
        let (m, r) = self.try_set_external_ref(caller, id, new_ref, now);
        (
            m,
            match r {
                Ok(v) => v,
                Err(_) => false,
            },
        )
    }

    pub open spec fn deactivate_policy(self, caller: Seq<u8>, id: u32, now: u64) -> (
        InsuranceModel,
        Result<bool, InsuranceError>,
    ) {
        if !self.policies.contains_key(id) {
            (self, Ok(false))
        } else {
            let p = self.policies[id];
            if p.owner != caller {
                (self, Ok(false))
            } else if p.active {
                (
                    InsuranceModel {
                        policies: self.policies.insert(id, PolicyModel { active: false, ..p }),
                        ext_index: without_ref(self.ext_index, p.owner, p.external_ref),
                        owner_active: self.owner_active.insert(
                            caller,
                            self.active_count(caller).saturating_sub(1),
                        ),
                        stats: StorageStats {
                            active_policies: self.stats.active_policies.saturating_sub(1),
                            archived_policies: self.stats.archived_policies,
                            last_updated: now,
                        },
                        ..self
                    },
                    Ok(true),
                )
            } else {
                (self, Ok(true))
            }
        }
    }

    pub open spec fn try_archive_policy(self, caller: Seq<u8>, id: u32, now: u64) -> (
        InsuranceModel,
        Result<bool, InsuranceError>,
    ) {
        if !self.policies.contains_key(id) {
            (self, Ok(false))
        } else {
            let p = self.policies[id];
            if p.owner != caller {
                (self, Err(InsuranceError::Unauthorized))
            } else {
                let active_after = if p.active {
                    self.stats.active_policies.saturating_sub(1)
                } else {
                    self.stats.active_policies
                };
                (
                    InsuranceModel {
                        policies: self.policies.remove(id),
                        archived: self.archived.insert(id, archived_from(p, now)),
                        ext_index: if p.active {
                            without_ref(self.ext_index, p.owner, p.external_ref)
                        } else {
                            self.ext_index
                        },
                        owner_active: if p.active {
                            self.owner_active.insert(
                                caller,
                                self.active_count(caller).saturating_sub(1),
                            )
                        } else {
                            self.owner_active
                        },
                        stats: StorageStats {
                            active_policies: active_after,
                            archived_policies: self.stats.archived_policies.saturating_add(1),
                            last_updated: now,
                        },
                        events: if p.active {
                            self.events.push(
                                EventModel::PolicyDeactivated {
                                    policy_id: id,
                                    owner: caller,
                                    timestamp: now,
                                },
                            )
                        } else {
                            self.events
                        },
                        ..self
                    },
                    Ok(true),
                )
            }
        }
    }

    pub open spec fn archive_policy(self, caller: Seq<u8>, id: u32, now: u64) -> (
        InsuranceModel,
        bool,
    ) {
        let (m, r) = self.try_archive_policy(caller, id, now);
        (
            m,
            match r {
                Ok(v) => v,
                Err(_) => false,
            },
        )
    }

    pub open spec fn restore_policy(self, caller: Seq<u8>, id: u32, now: u64) -> (
        InsuranceModel,
        bool,
    ) {
        if !self.archived.contains_key(id) {
            (self, false)
        } else {
            let a = self.archived[id];
            if a.owner != caller {
                (self, false)
            } else if self.active_count(caller) >= MAX_POLICIES_PER_OWNER {
                (self, false)
            } else if a.external_ref matches Some(r) && self.ext_index.contains_key((caller, r)) {
                (self, false)
            } else {
                (
                    InsuranceModel {
                        policies: self.policies.insert(id, restored_from(a)),
                        archived: self.archived.remove(id),
                        ext_index: with_ref(self.ext_index, caller, a.external_ref, id),
                        owner_active: self.owner_active.insert(
                            caller,
                            self.active_count(caller).saturating_add(1),
                        ),
                        stats: StorageStats {
                            active_policies: (self.stats.active_policies + 1) as u32,
                            archived_policies: self.stats.archived_policies.saturating_sub(1),
                            last_updated: now,
                        },
                        ..self
                    },
                    true,
                )
            }
        }
    }

    pub open spec fn pay_premium(self, caller: Seq<u8>, id: u32, now: u64) -> (
        InsuranceModel,
        bool,
    ) {
        if !self.policies.contains_key(id) {
            (self, false)
        } else {
            let p = self.policies[id];
            if p.owner != caller || !p.active {
                (self, false)
            } else {
                let next = next_due_date(p.next_payment_date, now);
                (
                    InsuranceModel {
                        policies: self.policies.insert(
                            id,
                            PolicyModel { next_payment_date: next, ..p },
                        ),
                        events: self.events.push(
                            EventModel::PremiumPaid {
                                policy_id: id,
                                owner: caller,
                                amount: p.monthly_premium,
                                next_payment_date: next,
                                timestamp: now,
                            },
                        ),
                        ..self
                    },
                    true,
                )
            }
        }
    }

    /// Pays the listed policies in order, as `pay_premium` would one by one;
    /// the result counts the payments made.
    pub open spec fn batch_pay_premiums(self, caller: Seq<u8>, ids: Seq<u32>, now: u64) -> (
        InsuranceModel,
        u32,
    )
        decreases ids.len(),
    {
        if ids.len() == 0 {
            (self, 0)
        } else {
            let (m, count) = self.batch_pay_premiums(caller, ids.drop_last(), now);
            let (m2, paid) = m.pay_premium(caller, ids.last(), now);
            (
                m2,
                if paid {
                    (count + 1) as u32
                } else {
                    count
                },
            )
        }
    }

    /// Sum of the premiums of the active policies among `ids`.
    pub open spec fn premium_total(self, ids: Seq<u32>) -> int
        decreases ids.len(),
    {
        if ids.len() == 0 {
            0
        } else {
            self.premium_total(ids.drop_last()) + if self.is_active(ids.last()) {
                self.policies[ids.last()].monthly_premium as int
            } else {
                0
            }
        }
    }

    pub open spec fn get_total_monthly_premium(self, owner: Seq<u8>) -> int {
        self.premium_total(self.owner_ids(owner))
    }

    /// The ids among `ids`, in order, that are above `cursor` and name active policies.
    pub open spec fn page_candidates(self, ids: Seq<u32>, cursor: u32) -> Seq<u32>
        decreases ids.len(),
    {
        if ids.len() == 0 {
            Seq::empty()
        } else {
            let rest = self.page_candidates(ids.drop_last(), cursor);
            if ids.last() > cursor && self.is_active(ids.last()) {
                rest.push(ids.last())
            } else {
                rest
            }
        }
    }

    /// A page of `owner`'s active policies with ids above `cursor`, in id
    /// order, at most `clamp_limit(limit)` of them; the cursor handed back is
    /// the id of the page's last policy when more remain, and `0` otherwise.
    pub open spec fn get_active_policies(self, owner: Seq<u8>, cursor: u32, limit: u32) -> PageModel {
        let lim = spec_clamp_limit(limit) as int;
        let cands = self.page_candidates(self.owner_ids(owner), cursor);
        let n = if cands.len() > lim {
            lim
        } else {
            cands.len() as int
        };
        PageModel {
            items: cands.take(n).map_values(|id: u32| self.policies[id]),
            next_cursor: if cands.len() > lim {
                cands[lim - 1]
            } else {
                0
            },
            count: n as u32,
        }
    }
}

} // verus!
