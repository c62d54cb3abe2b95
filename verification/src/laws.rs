//! Properties of the registry that span several operations or every state.

use vstd::prelude::*;
use crate::common::{first_tag_problem, fold_byte, folded_tag, tag_byte_allowed, tag_problem};
use crate::model::{archived_from, restored_from, valid_external_ref, with_ref, InsuranceModel};
use crate::policy::{
    EventModel, InsuranceError, PolicyModel, MAX_POLICIES_PER_OWNER, PAYMENT_PERIOD_SECONDS,
};
use crate::common::{spec_clamp_limit, CoverageType};
use crate::insurance::strictly_increasing;

verus! {

proof fn lemma_member_gives_positive_len(s: Set<u32>, x: u32)
    requires
        s.finite(),
        s.contains(x),
    ensures
        s.len() >= 1,
{
    if s.len() == 0 {
        s.lemma_len0_is_empty();
    }
}

/// A created policy is found under its new id, active and with the data it
/// was created with, due one period after creation; the id was unused, it
/// ends the owner's id list, and the reference, when given, leads to it.
pub proof fn law_create_then_read(
    m: InsuranceModel,
    owner: Seq<u8>,
    name: Seq<u8>,
    coverage_type: CoverageType,
    monthly_premium: i128,
    coverage_amount: i128,
    external_ref: Option<Seq<u8>>,
    now: u64,
)
    requires
        m.inv(),
        m.next_id < u32::MAX,
    ensures
        ({
            let (m1, r) = m.create_policy(
                owner,
                name,
                coverage_type,
                monthly_premium,
                coverage_amount,
                external_ref,
                now,
            );
            r matches Ok(id) ==> {
                &&& !m.policies.contains_key(id) && !m.archived.contains_key(id)
                &&& m1.get_policy(id) == Some(
                    PolicyModel {
                        id,
                        owner,
                        name,
                        external_ref,
                        coverage_type,
                        monthly_premium,
                        coverage_amount,
                        active: true,
                        next_payment_date: now.saturating_add(PAYMENT_PERIOD_SECONDS),
                    },
                )
                &&& m1.owner_ids(owner).last() == id
                &&& (external_ref matches Some(r) ==> m1.ext_lookup(owner, r) == Some(id))
                &&& m1.active_count(owner) == m.active_count(owner) + 1
                &&& m1.stats.active_policies == m.stats.active_policies + 1
            }
        }),
{
}

/// Archiving an active policy and restoring it right away brings back the
/// same policy, counts, statistics and reference index.
pub proof fn law_archive_then_restore(m: InsuranceModel, caller: Seq<u8>, id: u32, t1: u64, t2: u64)
    requires
        m.inv(),
        m.is_active(id),
        m.policies[id].owner == caller,
    ensures
        ({
            let (m1, r1) = m.try_archive_policy(caller, id, t1);
            let (m2, r2) = m1.restore_policy(caller, id, t2);
            &&& r1 == Ok::<bool, crate::policy::InsuranceError>(true)
            &&& r2
            &&& m2.policies == m.policies
            &&& m2.archived == m.archived
            &&& m2.owner_active == m.owner_active
            &&& m2.owner_index == m.owner_index
            &&& m2.stats.active_policies == m.stats.active_policies
            &&& m2.stats.archived_policies == m.stats.archived_policies
            &&& m2.ext_index == with_ref(m.ext_index, caller, m.policies[id].external_ref, id)
            &&& m2.ext_index == m.ext_index
        }),
{
    let p = m.policies[id];
    let (m1, r1) = m.try_archive_policy(caller, id, t1);
    let (m2, r2) = m1.restore_policy(caller, id, t2);
    lemma_member_gives_positive_len(m.owned_active_ids(caller), id);
    lemma_member_gives_positive_len(m.active_ids(), id);
    assert(m.active_count(caller) >= 1);
    assert(m.owner_active.contains_key(caller));
    assert(m1.archived.contains_key(id));
    assert(m1.archived[id] == archived_from(p, t1));
    assert(restored_from(archived_from(p, t1)) == p);
    assert(m2.policies =~= m.policies);
    assert(m2.archived =~= m.archived);
    assert(m2.owner_active =~= m.owner_active);
    assert(m2.ext_index =~= with_ref(m.ext_index, caller, p.external_ref, id));
}

/// Deactivating a policy a second time changes nothing and still succeeds.
pub proof fn law_deactivate_idempotent(m: InsuranceModel, caller: Seq<u8>, id: u32, t1: u64, t2: u64)
    ensures
        ({
            let (m1, r1) = m.deactivate_policy(caller, id, t1);
            let (m2, r2) = m1.deactivate_policy(caller, id, t2);
            r1 == Ok::<bool, crate::policy::InsuranceError>(true) ==> r2 == r1 && m2 == m1
        }),
{
    let (m1, r1) = m.deactivate_policy(caller, id, t1);
    let (m2, r2) = m1.deactivate_policy(caller, id, t2);
    if r1 == Ok::<bool, crate::policy::InsuranceError>(true) {
        assert(m2.ext_index =~= m1.ext_index);
        assert(m2 =~= m1);
    }
}

/// Setting the external reference a policy already has succeeds and changes
/// nothing.
pub proof fn law_set_same_external_ref_is_noop(m: InsuranceModel, caller: Seq<u8>, id: u32, now: u64)
    requires
        m.is_active(id),
        m.policies[id].owner == caller,
    ensures
        m.try_set_external_ref(caller, id, m.policies[id].external_ref, now) == (
            m,
            Ok::<bool, crate::policy::InsuranceError>(true),
        ),
{
}

/// After a successful change of reference, the new reference leads to the
/// policy and the policy carries it.
pub proof fn law_set_external_ref_then_lookup(
    m: InsuranceModel,
    caller: Seq<u8>,
    id: u32,
    r: Seq<u8>,
    now: u64,
)
    ensures
        ({
            let (m1, res) = m.try_set_external_ref(caller, id, Some(r), now);
            res is Ok && m.policies[id].external_ref != Some(r) ==> m1.ext_lookup(caller, r) == Some(id) && (m1.get_policy(id) matches Some(p)
                && p.external_ref == Some(r))
        }),
{
}

/// A paid premium moves the due date to one period after the payment, in
/// the future unless the clock is within one period of its end, and the
/// `PremiumPaid` event carries that date; nothing else of the policy changes.
pub proof fn law_pay_premium_schedule(m: InsuranceModel, caller: Seq<u8>, id: u32, now: u64)
    ensures
        ({
            let (m1, paid) = m.pay_premium(caller, id, now);
            paid ==> {
                let p = m.policies[id];
                let due = now.saturating_add(PAYMENT_PERIOD_SECONDS);
                &&& m1.policies[id] == PolicyModel { next_payment_date: due, ..p }
                &&& (now <= u64::MAX - PAYMENT_PERIOD_SECONDS ==> due == now + PAYMENT_PERIOD_SECONDS
                    && due > now)
                &&& (m1.events.last() matches EventModel::PremiumPaid { next_payment_date, .. }
                    && next_payment_date == due)
            }
        }),
{
}

/// A batch payment leaves every policy it paid due one period after the
/// payment time, whatever its earlier due date.
pub proof fn law_batch_due_dates_uniform(m: InsuranceModel, caller: Seq<u8>, ids: Seq<u32>, now: u64)
    requires
        ids.len() <= u32::MAX,
    ensures
        ({
            let (m1, count) = m.batch_pay_premiums(caller, ids, now);
            &&& count <= ids.len()
            &&& forall|id: u32|
                #![trigger m1.policies[id]]
                ids.contains(id) && m.is_active(id) && m.policies[id].owner == caller
                    ==> m1.policies.contains_key(id) && m1.policies[id].next_payment_date
                    == now.saturating_add(PAYMENT_PERIOD_SECONDS)
        }),
    decreases ids.len(),
{
    let (m1, count) = m.batch_pay_premiums(caller, ids, now);
    if ids.len() > 0 {
        let init = ids.drop_last();
        let last = ids.last();
        law_batch_due_dates_uniform(m, caller, init, now);
        let (mi, ci) = m.batch_pay_premiums(caller, init, now);
        let (m2, paid) = mi.pay_premium(caller, last, now);
        assert(m1 == m2);
        assert(count == if paid {
            (ci + 1) as u32
        } else {
            ci
        });
        assert forall|id: u32|
            #![trigger m1.policies[id]]
            ids.contains(id) && m.is_active(id) && m.policies[id].owner == caller implies m1.policies.contains_key(id)
                && m1.policies[id].next_payment_date == now.saturating_add(PAYMENT_PERIOD_SECONDS) by {
            lemma_batch_keeps_owner(m, caller, init, now, id);
            if id != last {
                let k = choose|k: int| 0 <= k < ids.len() && ids[k] == id;
                assert(init[k] == id);
                assert(init.contains(id));
                assert(mi.policies[id].next_payment_date == now.saturating_add(PAYMENT_PERIOD_SECONDS));
            } else {
                assert(paid);
            }
        }
    }
}

/// A batch payment keeps every live policy live, with the same owner and
/// activity.
proof fn lemma_batch_keeps_owner(m: InsuranceModel, caller: Seq<u8>, ids: Seq<u32>, now: u64, id: u32)
    ensures
        ({
            let (m1, _) = m.batch_pay_premiums(caller, ids, now);
            m.policies.contains_key(id) ==> m1.policies.contains_key(id) && m1.policies[id].owner
                == m.policies[id].owner && m1.policies[id].active == m.policies[id].active
        }),
    decreases ids.len(),
{
    if ids.len() > 0 {
        lemma_batch_keeps_owner(m, caller, ids.drop_last(), now, id);
    }
}

/// Every tag that canonicalization accepts comes out in a form that it
/// accepts again unchanged: canonicalization is idempotent.
pub proof fn law_canonical_tags_are_fixed_points(t: Seq<u8>)
    requires
        tag_problem(t) is None,
    ensures
        tag_problem(folded_tag(t)) is None,
        folded_tag(folded_tag(t)) == folded_tag(t),
{
    let f = folded_tag(t);
    assert forall|j: int| 0 <= j < f.len() implies tag_byte_allowed(fold_byte(#[trigger] f[j]))
        && fold_byte(f[j]) == f[j] by {
        assert(tag_byte_allowed(fold_byte(t[j])));
    }
    assert(folded_tag(f) =~= f);
}

/// No owner ever holds more than `MAX_POLICIES_PER_OWNER` active policies,
/// and the recorded count is their number.
pub proof fn law_owner_cap_holds(m: InsuranceModel, owner: Seq<u8>)
    requires
        m.inv(),
    ensures
        m.active_count(owner) <= MAX_POLICIES_PER_OWNER,
        m.active_count(owner) == m.owned_active_ids(owner).len(),
{
}


/// The ids of `s` that are above `x`, in order.
pub open spec fn ids_above(s: Seq<u32>, x: u32) -> Seq<u32>
    decreases s.len(),
{
    if s.len() == 0 {
        Seq::empty()
    } else {
        let rest = ids_above(s.drop_last(), x);
        if s.last() > x {
            rest.push(s.last())
        } else {
            rest
        }
    }
}

proof fn lemma_candidates_members(m: InsuranceModel, ids: Seq<u32>, cursor: u32)
    requires
        strictly_increasing(ids),
    ensures
        strictly_increasing(m.page_candidates(ids, cursor)),
        forall|k: int|
            0 <= k < m.page_candidates(ids, cursor).len() ==> {
                let id = #[trigger] m.page_candidates(ids, cursor)[k];
                &&& ids.contains(id)
                &&& id > cursor
                &&& m.is_active(id)
            },
    decreases ids.len(),
{
    if ids.len() > 0 {
        let init = ids.drop_last();
        lemma_candidates_members(m, init, cursor);
        let c = m.page_candidates(init, cursor);
        assert forall|k: int| 0 <= k < c.len() implies #[trigger] c[k] < ids.last() && ids.contains(c[k]) by {
            let j = choose|j: int| 0 <= j < init.len() && init[j] == c[k];
            assert(ids[j] == c[k]);
        }
    }
}

proof fn lemma_candidates_above(m: InsuranceModel, ids: Seq<u32>, cursor: u32, x: u32)
    requires
        cursor <= x,
    ensures
        m.page_candidates(ids, x) == ids_above(m.page_candidates(ids, cursor), x),
    decreases ids.len(),
{
    if ids.len() > 0 {
        let init = ids.drop_last();
        lemma_candidates_above(m, init, cursor, x);
        let c = m.page_candidates(init, cursor);
        let v = ids.last();
        if v > cursor && m.is_active(v) {
            assert(c.push(v).drop_last() =~= c);
        }
    }
}

proof fn lemma_above_none(c: Seq<u32>, x: u32)
    requires
        forall|k: int| 0 <= k < c.len() ==> c[k] <= x,
    ensures
        ids_above(c, x) == Seq::<u32>::empty(),
    decreases c.len(),
{
    if c.len() > 0 {
        lemma_above_none(c.drop_last(), x);
    }
}

proof fn lemma_above_element(c: Seq<u32>, j: int)
    requires
        strictly_increasing(c),
        0 <= j < c.len(),
    ensures
        ids_above(c, c[j]) == c.skip(j + 1),
    decreases c.len(),
{
    if j == c.len() - 1 {
        lemma_above_none(c.drop_last(), c[j]);
        assert(c.skip(j + 1) =~= Seq::<u32>::empty());
    } else {
        lemma_above_element(c.drop_last(), j);
        assert(c.drop_last().skip(j + 1).push(c.last()) =~= c.skip(j + 1));
    }
}

/// Pages follow each other without gaps or repeats: asking for the page
/// after the cursor that a page handed back gives exactly the candidates
/// that this page left out. Every item of a page is an active policy of the
/// owner with an id above the cursor, in increasing id order.
pub proof fn law_pages_chain(m: InsuranceModel, owner: Seq<u8>, cursor: u32, limit: u32)
    requires
        m.inv(),
    ensures
        ({
            let page = m.get_active_policies(owner, cursor, limit);
            let ids = m.owner_ids(owner);
            let lim = spec_clamp_limit(limit);
            &&& page.count <= lim
            &&& forall|k: int|
                0 <= k < page.items.len() ==> {
                    let p = #[trigger] page.items[k];
                    &&& p.active
                    &&& p.owner == owner
                    &&& p.id > cursor
                    &&& m.policies.contains_key(p.id) && m.policies[p.id] == p
                }
            &&& forall|a: int, b: int| 0 <= a < b < page.items.len() ==> page.items[a].id < page.items[b].id
            &&& page.next_cursor != 0 ==> m.page_candidates(ids, page.next_cursor) == m.page_candidates(
                ids,
                cursor,
            ).skip(lim as int)
        }),
{
    let ids = m.owner_ids(owner);
    let lim = spec_clamp_limit(limit);
    let c = m.page_candidates(ids, cursor);
    let page = m.get_active_policies(owner, cursor, limit);
    lemma_candidates_members(m, ids, cursor);
    let n = page.count as int;
    assert forall|k: int| 0 <= k < page.items.len() implies {
        let p = #[trigger] page.items[k];
        &&& p.active
        &&& p.owner == owner
        &&& p.id > cursor
        &&& m.policies.contains_key(p.id) && m.policies[p.id] == p
    } by {
        let id = c[k];
        assert(page.items[k] == m.policies[id]);
        assert(ids.contains(id));
    }
    assert forall|a: int, b: int| 0 <= a < b < page.items.len() implies page.items[a].id < page.items[b].id by {
        assert(page.items[a] == m.policies[c[a]]);
        assert(page.items[b] == m.policies[c[b]]);
    }
    if page.next_cursor != 0 {
        if c.len() > lim {
            lemma_candidates_above(m, ids, cursor, c[lim - 1]);
            lemma_above_element(c, lim - 1);
        }
    }
}


/// Archiving an active policy frees its external reference for reuse by its
/// owner; archiving an inactive one leaves the reference index as it is, so
/// a newer active policy that carries the same reference keeps it.
pub proof fn law_archive_frees_reference(m: InsuranceModel, caller: Seq<u8>, id: u32, now: u64)
    ensures
        ({
            let (m1, r) = m.try_archive_policy(caller, id, now);
            r == Ok::<bool, crate::policy::InsuranceError>(true) ==> {
                &&& m.policies[id].active ==> (m.policies[id].external_ref matches Some(x)
                    ==> m1.ext_lookup(caller, x) is None)
                &&& !m.policies[id].active ==> m1.ext_index == m.ext_index
            }
        }),
{
}


/// The external-reference index answers exactly for the active policies:
/// looking up `(owner, r)` gives `id` if and only if `id` is an active policy
/// of `owner` that carries `r`.
pub proof fn law_ext_lookup_exact(m: InsuranceModel, owner: Seq<u8>, r: Seq<u8>, id: u32)
    requires
        m.inv(),
    ensures
        m.ext_lookup(owner, r) == Some(id) <==> (m.is_active(id) && m.policies[id].owner == owner
            && m.policies[id].external_ref == Some(r)),
{
    if m.is_active(id) && m.policies[id].owner == owner && m.policies[id].external_ref == Some(r) {
        assert(m.ext_index.contains_key((owner, r)) && m.ext_index[(owner, r)] == id);
    }
}

/// No two active policies of one owner carry the same external reference.
pub proof fn law_active_refs_unique(m: InsuranceModel, a: u32, b: u32)
    requires
        m.inv(),
        m.is_active(a),
        m.is_active(b),
        m.policies[a].owner == m.policies[b].owner,
        m.policies[a].external_ref is Some,
        m.policies[a].external_ref == m.policies[b].external_ref,
    ensures
        a == b,
{
    let r = m.policies[a].external_ref->0;
    law_ext_lookup_exact(m, m.policies[a].owner, r, a);
    law_ext_lookup_exact(m, m.policies[a].owner, r, b);
}

/// A new policy whose amounts and owner pass the checks and whose reference
/// is well formed is refused with `DuplicateExternalRef` exactly when an
/// active policy of the same owner already carries that reference; otherwise
/// it is created.
pub proof fn law_duplicate_reference_refused(
    m: InsuranceModel,
    owner: Seq<u8>,
    name: Seq<u8>,
    coverage_type: CoverageType,
    monthly_premium: i128,
    coverage_amount: i128,
    r: Seq<u8>,
    now: u64,
)
    requires
        m.inv(),
        m.create_allocates(owner, monthly_premium, coverage_amount),
        valid_external_ref(r),
    ensures
        ({
            let (_, res) = m.create_policy(
                owner,
                name,
                coverage_type,
                monthly_premium,
                coverage_amount,
                Some(r),
                now,
            );
            &&& res == Err::<u32, InsuranceError>(InsuranceError::DuplicateExternalRef) <==> exists|q: u32|
                m.is_active(q) && #[trigger] m.policies[q].owner == owner && m.policies[q].external_ref
                    == Some(r)
            &&& res != Err::<u32, InsuranceError>(InsuranceError::DuplicateExternalRef) ==> res is Ok
        }),
{
    if m.ext_index.contains_key((owner, r)) {
        let q = m.ext_index[(owner, r)];
        law_ext_lookup_exact(m, owner, r, q);
        assert(m.policies[q].owner == owner);
    }
    if exists|q: u32|
        m.is_active(q) && #[trigger] m.policies[q].owner == owner && m.policies[q].external_ref == Some(r) {
        let q = choose|q: u32|
            m.is_active(q) && #[trigger] m.policies[q].owner == owner && m.policies[q].external_ref
                == Some(r);
        law_ext_lookup_exact(m, owner, r, q);
    }
}

/// Deactivating a policy of `caller` that is already inactive succeeds and
/// changes nothing: no count, statistic or index binding moves.
pub proof fn law_deactivate_inactive_is_noop(m: InsuranceModel, caller: Seq<u8>, id: u32, now: u64)
    requires
        m.policies.contains_key(id),
        m.policies[id].owner == caller,
        !m.policies[id].active,
    ensures
        m.deactivate_policy(caller, id, now) == (m, Ok::<bool, InsuranceError>(true)),
{
}

/// The items of the pages read from `cursor` on, each page asked for at the
/// cursor that the one before handed back, until a page hands back `0` or
/// `n` pages have been read.
pub open spec fn pages_from(m: InsuranceModel, owner: Seq<u8>, cursor: u32, limit: u32, n: nat) -> Seq<
    PolicyModel,
>
    decreases n,
{
    if n == 0 {
        Seq::empty()
    } else {
        let page = m.get_active_policies(owner, cursor, limit);
        if page.next_cursor == 0 {
            page.items
        } else {
            page.items + pages_from(m, owner, page.next_cursor, limit, (n - 1) as nat)
        }
    }
}

proof fn lemma_pages_from(m: InsuranceModel, owner: Seq<u8>, cursor: u32, limit: u32, n: nat)
    requires
        m.inv(),
        n > m.page_candidates(m.owner_ids(owner), cursor).len(),
    ensures
        pages_from(m, owner, cursor, limit, n) =~= m.page_candidates(m.owner_ids(owner), cursor).map_values(
            |id: u32| m.policies[id],
        ),
    decreases n,
{
    let ids = m.owner_ids(owner);
    let c = m.page_candidates(ids, cursor);
    let lim = spec_clamp_limit(limit) as int;
    let page = m.get_active_policies(owner, cursor, limit);
    lemma_candidates_members(m, ids, cursor);
    law_pages_chain(m, owner, cursor, limit);
    if c.len() > lim {
        assert(c[lim - 1] > cursor);
        let next = page.next_cursor;
        assert(next != 0);
        let c2 = m.page_candidates(ids, next);
        assert(c2 == c.skip(lim));
        lemma_pages_from(m, owner, next, limit, (n - 1) as nat);
        let rest = pages_from(m, owner, next, limit, (n - 1) as nat);
        assert(pages_from(m, owner, cursor, limit, n) == page.items + rest);
        assert forall|k: int| 0 <= k < c.len() implies (page.items + rest)[k] == m.policies[c[k]] by {
            if k < lim {
                assert(page.items[k] == m.policies[c[k]]);
            } else {
                assert(rest[k - lim] == m.policies[c2[k - lim]]);
                assert(c2[k - lim] == c[k]);
            }
        }
    } else {
        assert(page.next_cursor == 0);
        assert(c.take(c.len() as int) =~= c);
    }
}

proof fn lemma_candidates_complete(m: InsuranceModel, ids: Seq<u32>, cursor: u32, x: u32)
    requires
        ids.contains(x),
        x > cursor,
        m.is_active(x),
    ensures
        m.page_candidates(ids, cursor).contains(x),
    decreases ids.len(),
{
    let init = ids.drop_last();
    let c = m.page_candidates(init, cursor);
    if ids.last() == x {
        assert(m.page_candidates(ids, cursor) == c.push(x));
        assert(c.push(x)[c.len() as int] == x);
    } else {
        let j = choose|j: int| 0 <= j < ids.len() && ids[j] == x;
        assert(init[j] == x);
        lemma_candidates_complete(m, init, cursor, x);
        let k = choose|k: int| 0 <= k < c.len() && c[k] == x;
        if ids.last() > cursor && m.is_active(ids.last()) {
            assert(c.push(ids.last())[k] == x);
        }
    }
}

/// Reading the pages of an owner's active policies from cursor `0` on, each
/// at the cursor the page before handed back, lists every active policy of
/// the owner exactly once, in increasing id order, as stored; more than
/// `MAX_POLICIES_PER_OWNER` pages are never needed.
pub proof fn law_pages_list_every_active_policy_once(m: InsuranceModel, owner: Seq<u8>, limit: u32, n: nat)
    requires
        m.inv(),
        n > MAX_POLICIES_PER_OWNER,
    ensures
        ({
            let items = pages_from(m, owner, 0, limit, n);
            &&& forall|a: int, b: int| 0 <= a < b < items.len() ==> items[a].id < items[b].id
            &&& forall|k: int|
                0 <= k < items.len() ==> {
                    let p = #[trigger] items[k];
                    &&& m.is_active(p.id)
                    &&& p.owner == owner
                    &&& m.policies[p.id] == p
                }
            &&& forall|id: u32|
                m.is_active(id) && #[trigger] m.policies[id].owner == owner ==> exists|k: int|
                    0 <= k < items.len() && items[k].id == id
        }),
{
    let ids = m.owner_ids(owner);
    let c = m.page_candidates(ids, 0);
    lemma_candidates_members(m, ids, 0);
    assert(c.no_duplicates()) by {
        assert forall|a: int, b: int| 0 <= a < c.len() && 0 <= b < c.len() && a != b implies c[a] != c[b] by {
            if a < b {
                assert(c[a] < c[b]);
            } else {
                assert(c[b] < c[a]);
            }
        }
    }
    c.unique_seq_to_set();
    assert forall|id: u32| c.to_set().contains(id) implies m.owned_active_ids(owner).contains(id) by {
        let k = choose|k: int| 0 <= k < c.len() && c[k] == id;
        assert(ids.contains(c[k]));
    }
    vstd::set_lib::lemma_len_subset(c.to_set(), m.owned_active_ids(owner));
    assert(c.len() <= MAX_POLICIES_PER_OWNER);
    lemma_pages_from(m, owner, 0, limit, n);
    let items = pages_from(m, owner, 0, limit, n);
    assert forall|k: int| 0 <= k < items.len() implies {
        let p = #[trigger] items[k];
        &&& m.is_active(p.id)
        &&& p.owner == owner
        &&& m.policies[p.id] == p
    } by {
        assert(items[k] == m.policies[c[k]]);
        assert(ids.contains(c[k]));
    }
    assert forall|a: int, b: int| 0 <= a < b < items.len() implies items[a].id < items[b].id by {
        assert(items[a] == m.policies[c[a]]);
        assert(items[b] == m.policies[c[b]]);
    }
    assert forall|id: u32| m.is_active(id) && #[trigger] m.policies[id].owner == owner implies exists|k: int|
        0 <= k < items.len() && items[k].id == id by {
        assert(ids.contains(id));
        lemma_candidates_complete(m, ids, 0, id);
        let k = choose|k: int| 0 <= k < c.len() && c[k] == id;
        assert(items[k] == m.policies[c[k]]);
    }
}


/// A requested page limit of 0 gives 20 items per page, a limit from 1 to 50
/// is used as given, and a larger one is capped at 50.
pub proof fn law_page_limit_normalization(limit: u32)
    ensures
        limit == 0 ==> spec_clamp_limit(limit) == 20,
        1 <= limit <= 50 ==> spec_clamp_limit(limit) == limit,
        limit > 50 ==> spec_clamp_limit(limit) == 50,
{
}

/// The active policies of `owner` with ids above `cursor`.
pub open spec fn active_above(m: InsuranceModel, owner: Seq<u8>, cursor: u32) -> Set<u32> {
    Set::new(|id: u32| m.is_active(id) && m.policies[id].owner == owner && id > cursor)
}

/// A page holds as many of the owner's active policies above the cursor as
/// the requested limit allows: `min(limit, n)` items for a limit from 1 to
/// 50, `min(20, n)` for a limit of 0 and `min(50, n)` for a larger one,
/// where `n` is the number of those policies.
pub proof fn law_page_size(m: InsuranceModel, owner: Seq<u8>, cursor: u32, limit: u32)
    requires
        m.inv(),
    ensures
        active_above(m, owner, cursor).finite(),
        ({
            let page = m.get_active_policies(owner, cursor, limit);
            let n = active_above(m, owner, cursor).len() as int;
            let want: int = if limit == 0 {
                20
            } else if limit > 50 {
                50
            } else {
                limit as int
            };
            &&& page.count == (if want < n { want } else { n })
            &&& page.items.len() == page.count
        }),
{
    let ids = m.owner_ids(owner);
    let c = m.page_candidates(ids, cursor);
    lemma_candidates_members(m, ids, cursor);
    assert(c.no_duplicates()) by {
        assert forall|a: int, b: int| 0 <= a < c.len() && 0 <= b < c.len() && a != b implies c[a] != c[b] by {
            if a < b {
                assert(c[a] < c[b]);
            } else {
                assert(c[b] < c[a]);
            }
        }
    }
    c.unique_seq_to_set();
    let set = active_above(m, owner, cursor);
    assert forall|id: u32| c.to_set().contains(id) <==> set.contains(id) by {
        if c.to_set().contains(id) {
            let k = choose|k: int| 0 <= k < c.len() && c[k] == id;
            assert(ids.contains(c[k]));
        }
        if set.contains(id) {
            assert(ids.contains(id));
            lemma_candidates_complete(m, ids, cursor, id);
        }
    }
    assert(c.to_set() =~= set);
    let page = m.get_active_policies(owner, cursor, limit);
    let lim = spec_clamp_limit(limit) as int;
    let n = if c.len() > lim { lim } else { c.len() as int };
    assert(page.items.len() == c.take(n).len());
}

/// An ASCII letter, an ASCII digit, `-` or `_`.
pub open spec fn plain_tag_byte(b: u8) -> bool {
    ||| 65 <= b <= 90
    ||| 97 <= b <= 122
    ||| 48 <= b <= 57
    ||| b == 45
    ||| b == 95
}

/// Folding turns each ASCII uppercase letter `A`..`Z` (65..90) into the
/// letter 32 higher, `a`..`z`, and keeps every other byte.
pub proof fn law_fold_byte_lowercases(b: u8)
    ensures
        65 <= b <= 90 ==> fold_byte(b) == b + 32 && tag_byte_allowed(fold_byte(b)),
        !(65 <= b <= 90) ==> fold_byte(b) == b,
{
}

/// A non-empty batch of tags of 1 to 32 bytes each, made only of ASCII
/// letters, digits, `-` and `_`, is always accepted, and each tag comes back
/// with its uppercase letters lowered by 32 and every other byte kept.
pub proof fn law_plain_tags_are_accepted(tags: Seq<Seq<u8>>)
    requires
        forall|i: int| 0 <= i < tags.len() ==> 1 <= (#[trigger] tags[i]).len() <= 32,
        forall|i: int, j: int| 0 <= i < tags.len() && 0 <= j < tags[i].len() ==> plain_tag_byte(#[trigger] tags[i][j]),
    ensures
        first_tag_problem(tags) is None,
        forall|i: int, j: int|
            0 <= i < tags.len() && 0 <= j < tags[i].len() ==> folded_tag(tags[i]).len() == tags[i].len()
                && #[trigger] folded_tag(tags[i])[j] == if 65 <= tags[i][j] <= 90 {
                (tags[i][j] + 32) as u8
            } else {
                tags[i][j]
            },
    decreases tags.len(),
{
    if tags.len() > 0 {
        let init = tags.drop_last();
        assert forall|i: int, j: int| 0 <= i < init.len() && 0 <= j < init[i].len() implies plain_tag_byte(
            #[trigger] init[i][j],
        ) by {
            assert(init[i] == tags[i]);
        }
        assert forall|i: int| 0 <= i < init.len() implies 1 <= (#[trigger] init[i]).len() <= 32 by {
            assert(init[i] == tags[i]);
        }
        law_plain_tags_are_accepted(init);
        let t = tags.last();
        assert forall|j: int| 0 <= j < t.len() implies tag_byte_allowed(fold_byte(#[trigger] t[j])) by {
            assert(plain_tag_byte(tags[tags.len() - 1][j]));
        }
        assert(tag_problem(t) is None);
    }
}

proof fn lemma_premium_total_same(m: InsuranceModel, m1: InsuranceModel, ids: Seq<u32>)
    requires
        forall|k: int|
            0 <= k < ids.len() ==> m1.is_active(#[trigger] ids[k]) == m.is_active(ids[k]) && (m.is_active(
                ids[k],
            ) ==> m1.policies[ids[k]].monthly_premium == m.policies[ids[k]].monthly_premium),
    ensures
        m1.premium_total(ids) == m.premium_total(ids),
    decreases ids.len(),
{
    if ids.len() > 0 {
        let init = ids.drop_last();
        assert forall|k: int| 0 <= k < init.len() implies m1.is_active(#[trigger] init[k]) == m.is_active(
            init[k],
        ) && (m.is_active(init[k]) ==> m1.policies[init[k]].monthly_premium
            == m.policies[init[k]].monthly_premium) by {
            assert(init[k] == ids[k]);
        }
        lemma_premium_total_same(m, m1, init);
        assert(ids.last() == ids[ids.len() - 1]);
    }
}

/// Creating a policy adds its monthly premium to its owner's total,
/// whatever its coverage type, name or reference; the totals of other owners
/// stay as they were.
pub proof fn law_total_grows_by_new_premium(
    m: InsuranceModel,
    owner: Seq<u8>,
    name: Seq<u8>,
    coverage_type: CoverageType,
    monthly_premium: i128,
    coverage_amount: i128,
    external_ref: Option<Seq<u8>>,
    now: u64,
    other: Seq<u8>,
)
    requires
        m.inv(),
        m.next_id < u32::MAX,
    ensures
        ({
            let (m1, r) = m.create_policy(
                owner,
                name,
                coverage_type,
                monthly_premium,
                coverage_amount,
                external_ref,
                now,
            );
            r is Ok ==> {
                &&& m1.get_total_monthly_premium(owner) == m.get_total_monthly_premium(owner)
                    + monthly_premium
                &&& other != owner ==> m1.get_total_monthly_premium(other)
                    == m.get_total_monthly_premium(other)
            }
        }),
{
    let (m1, r) = m.create_policy(
        owner,
        name,
        coverage_type,
        monthly_premium,
        coverage_amount,
        external_ref,
        now,
    );
    if r is Ok {
        let id = (m.next_id + 1) as u32;
        let ids = m.owner_ids(owner);
        assert forall|k: int| 0 <= k < ids.len() implies m1.is_active(#[trigger] ids[k]) == m.is_active(
            ids[k],
        ) && (m.is_active(ids[k]) ==> m1.policies[ids[k]].monthly_premium
            == m.policies[ids[k]].monthly_premium) by {
            assert(ids.contains(ids[k]));
            assert(ids[k] != id);
        }
        lemma_premium_total_same(m, m1, ids);
        assert(m1.owner_ids(owner) == ids.push(id));
        assert(ids.push(id).drop_last() =~= ids);
        let oids = m.owner_ids(other);
        if other != owner {
            assert forall|k: int| 0 <= k < oids.len() implies m1.is_active(#[trigger] oids[k])
                == m.is_active(oids[k]) && (m.is_active(oids[k]) ==> m1.policies[oids[k]].monthly_premium
                == m.policies[oids[k]].monthly_premium) by {
                assert(oids.contains(oids[k]));
                assert(oids[k] != id);
            }
            lemma_premium_total_same(m, m1, oids);
        }
    }
}

proof fn lemma_premium_total_drop(m: InsuranceModel, m1: InsuranceModel, ids: Seq<u32>, id: u32)
    requires
        strictly_increasing(ids),
        ids.contains(id),
        m.is_active(id),
        !m1.is_active(id),
        forall|k: int|
            0 <= k < ids.len() && #[trigger] ids[k] != id ==> m1.is_active(ids[k]) == m.is_active(ids[k])
                && (m.is_active(ids[k]) ==> m1.policies[ids[k]].monthly_premium
                == m.policies[ids[k]].monthly_premium),
    ensures
        m1.premium_total(ids) == m.premium_total(ids) - m.policies[id].monthly_premium,
    decreases ids.len(),
{
    let init = ids.drop_last();
    if ids.last() == id {
        assert forall|k: int| 0 <= k < init.len() implies m1.is_active(#[trigger] init[k]) == m.is_active(
            init[k],
        ) && (m.is_active(init[k]) ==> m1.policies[init[k]].monthly_premium
            == m.policies[init[k]].monthly_premium) by {
            assert(init[k] == ids[k]);
            assert(ids[k] < ids[ids.len() - 1]);
        }
        lemma_premium_total_same(m, m1, init);
    } else {
        let j = choose|j: int| 0 <= j < ids.len() && ids[j] == id;
        assert(j != ids.len() - 1);
        assert(init[j] == id);
        assert forall|k: int| 0 <= k < init.len() && #[trigger] init[k] != id implies m1.is_active(init[k])
            == m.is_active(init[k]) && (m.is_active(init[k]) ==> m1.policies[init[k]].monthly_premium
            == m.policies[init[k]].monthly_premium) by {
            assert(init[k] == ids[k]);
        }
        lemma_premium_total_drop(m, m1, init, id);
        assert(ids.last() == ids[ids.len() - 1]);
    }
}

/// Deactivating an active policy takes exactly its monthly premium off its
/// owner's total, whatever its coverage type.
pub proof fn law_total_shrinks_by_deactivated_premium(m: InsuranceModel, caller: Seq<u8>, id: u32, now: u64)
    requires
        m.inv(),
        m.is_active(id),
        m.policies[id].owner == caller,
    ensures
        ({
            let (m1, _) = m.deactivate_policy(caller, id, now);
            m1.get_total_monthly_premium(caller) == m.get_total_monthly_premium(caller)
                - m.policies[id].monthly_premium
        }),
{
    let (m1, _) = m.deactivate_policy(caller, id, now);
    let ids = m.owner_ids(caller);
    assert(ids.contains(id));
    lemma_premium_total_drop(m, m1, ids, id);
}

/// Any reference of 1 to 128 bytes, whatever its bytes, is accepted: a
/// policy with amounts in range, under its owner's cap, whose reference no
/// active policy of the owner carries, is created under the next id and the
/// reference then leads to it.
pub proof fn law_create_accepts_any_reference_of_valid_length(
    m: InsuranceModel,
    owner: Seq<u8>,
    name: Seq<u8>,
    coverage_type: CoverageType,
    monthly_premium: i128,
    coverage_amount: i128,
    r: Seq<u8>,
    now: u64,
)
    requires
        m.inv(),
        m.next_id < u32::MAX,
        m.create_allocates(owner, monthly_premium, coverage_amount),
        1 <= r.len() <= 128,
        forall|q: u32|
            m.is_active(q) && #[trigger] m.policies[q].owner == owner ==> m.policies[q].external_ref
                != Some(r),
    ensures
        ({
            let (m1, res) = m.create_policy(
                owner,
                name,
                coverage_type,
                monthly_premium,
                coverage_amount,
                Some(r),
                now,
            );
            &&& res == Ok::<u32, InsuranceError>((m.next_id + 1) as u32)
            &&& m1.ext_lookup(owner, r) == Some((m.next_id + 1) as u32)
        }),
{
    if m.ext_index.contains_key((owner, r)) {
        let q = m.ext_index[(owner, r)];
        law_ext_lookup_exact(m, owner, r, q);
        assert(m.policies[q].owner == owner);
    }
}

/// Changing or clearing a policy's reference never reports `Ok(false)`:
/// whenever it succeeds the value is `true`, and the plain form reports
/// `true` exactly when the checked form succeeds.
pub proof fn law_set_external_ref_reports_true(
    m: InsuranceModel,
    caller: Seq<u8>,
    id: u32,
    new_ref: Option<Seq<u8>>,
    now: u64,
)
    ensures
        m.try_set_external_ref(caller, id, new_ref, now).1 matches Ok(v) ==> v,
        m.set_external_ref(caller, id, new_ref, now).1 <==> m.try_set_external_ref(
            caller,
            id,
            new_ref,
            now,
        ).1 is Ok,
{
}

/// The owner of an active policy can always give it a reference of 1 to 128
/// bytes that no other active policy of the owner carries, or clear it: the
/// call returns `Ok(true)` and the policy then carries the new reference.
pub proof fn law_set_external_ref_succeeds(
    m: InsuranceModel,
    caller: Seq<u8>,
    id: u32,
    new_ref: Option<Seq<u8>>,
    now: u64,
)
    requires
        m.inv(),
        m.is_active(id),
        m.policies[id].owner == caller,
        new_ref matches Some(r) ==> 1 <= r.len() <= 128 && forall|q: u32|
            m.is_active(q) && q != id && #[trigger] m.policies[q].owner == caller
                ==> m.policies[q].external_ref != Some(r),
    ensures
        ({
            let (m1, res) = m.try_set_external_ref(caller, id, new_ref, now);
            &&& res == Ok::<bool, InsuranceError>(true)
            &&& m1.policies[id].external_ref == new_ref
        }),
{
    if let Some(r) = new_ref {
        if m.ext_index.contains_key((caller, r)) {
            let q = m.ext_index[(caller, r)];
            law_ext_lookup_exact(m, caller, r, q);
            assert(m.policies[q].owner == caller);
        }
    }
}

} // verus!
