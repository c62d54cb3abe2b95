//! The records, errors and events of the insurance registry, with their
//! mathematical models.
//!
//! Accounts and strings are held as their bytes: an owner is the byte string
//! of its address, names and external references are the bytes of the text.

use vstd::prelude::*;
use crate::common::{CoverageType, EventCategory, EventPriority};

verus! {

/// Seconds between two premium due dates (thirty days).
pub const PAYMENT_PERIOD_SECONDS: u64 = 2592000;

/// Maximum number of active policies a single owner may hold.
pub const MAX_POLICIES_PER_OWNER: u32 = 50;

/// Maximum monthly premium of a single policy: `i128::MAX / MAX_POLICIES_PER_OWNER`,
/// so that the premiums of one owner's active policies always sum without overflow.
pub const MAX_MONTHLY_PREMIUM: i128 = 3402823669209384634633746074317682114;

/// Maximum coverage amount of a single policy: `i128::MAX / MAX_POLICIES_PER_OWNER`.
pub const MAX_COVERAGE_AMOUNT: i128 = 3402823669209384634633746074317682114;

/// Maximum byte length of an external reference.
pub const MAX_EXTERNAL_REF_LEN: u32 = 128;

/// Default and maximum page sizes of `get_active_policies`.
pub const DEFAULT_PAGE_LIMIT: u32 = 20;

pub const MAX_PAGE_LIMIT: u32 = 50;

/// Errors returned by the insurance registry.
#[derive(Clone, Copy, Debug, PartialEq, Eq, PartialOrd, Ord, Structural)]
pub enum InsuranceError {
    PolicyNotFound,
    Unauthorized,
    PolicyLimitExceeded,
    PolicyInactive,
    InvalidExternalRef,
    DuplicateExternalRef,
    MonthlyPremiumTooLow,
    CoverageAmountTooLow,
    MonthlyPremiumTooHigh,
    CoverageAmountTooHigh,
}

/// Storage statistics: active and archived policy counts and the time of the
/// last change to either.
#[derive(Clone, Copy, Debug, PartialEq, Eq, Structural)]
pub struct StorageStats {
    pub active_policies: u32,
    pub archived_policies: u32,
    pub last_updated: u64,
}

#[derive(Clone, Debug, PartialEq, Eq)]
pub struct InsurancePolicy {
    pub id: u32,
    pub owner: Vec<u8>,
    pub name: Vec<u8>,
    pub external_ref: Option<Vec<u8>>,
    pub coverage_type: CoverageType,
    pub monthly_premium: i128,
    pub coverage_amount: i128,
    pub active: bool,
    pub next_payment_date: u64,
}

#[derive(Clone, Debug, PartialEq, Eq)]
pub struct ArchivedPolicy {
    pub id: u32,
    pub owner: Vec<u8>,
    pub name: Vec<u8>,
    pub external_ref: Option<Vec<u8>>,
    pub coverage_type: CoverageType,
    pub monthly_premium: i128,
    pub coverage_amount: i128,
    pub archived_at: u64,
    pub next_payment_date: u64,
}

/// One page of an owner's active policies.
#[derive(Clone, Debug, PartialEq, Eq)]
pub struct PolicyPage {
    /// Active policies returned for this page.
    pub items: Vec<InsurancePolicy>,
    /// Cursor to resume from on the next call; `0` means end of list.
    pub next_cursor: u32,
    /// Number of items returned in `items`.
    pub count: u32,
}

#[derive(Clone, Debug, PartialEq, Eq)]
pub struct PolicyCreatedEvent {
    pub policy_id: u32,
    pub owner: Vec<u8>,
    pub coverage_type: CoverageType,
    pub monthly_premium: i128,
    pub coverage_amount: i128,
    pub timestamp: u64,
}

#[derive(Clone, Debug, PartialEq, Eq)]
pub struct PremiumPaidEvent {
    pub policy_id: u32,
    pub owner: Vec<u8>,
    pub amount: i128,
    pub next_payment_date: u64,
    pub timestamp: u64,
}

#[derive(Clone, Debug, PartialEq, Eq)]
pub struct PolicyDeactivatedEvent {
    pub policy_id: u32,
    pub owner: Vec<u8>,
    pub timestamp: u64,
}

/// Emitted on every successful external-reference change; carries the old and
/// the new reference.
#[derive(Clone, Debug, PartialEq, Eq)]
pub struct ExternalRefUpdatedEvent {
    pub policy_id: u32,
    pub owner: Vec<u8>,
    pub old_external_ref: Option<Vec<u8>>,
    pub new_external_ref: Option<Vec<u8>>,
    pub timestamp: u64,
}

/// An event that the registry has emitted.
#[derive(Clone, Debug, PartialEq, Eq)]
pub enum InsuranceEvent {
    PolicyCreated(PolicyCreatedEvent),
    PremiumPaid(PremiumPaidEvent),
    PolicyDeactivated(PolicyDeactivatedEvent),
    ExternalRefUpdated(ExternalRefUpdatedEvent),
}

/// Model of an `InsurancePolicy`.
pub struct PolicyModel {
    pub id: u32,
    pub owner: Seq<u8>,
    pub name: Seq<u8>,
    pub external_ref: Option<Seq<u8>>,
    pub coverage_type: CoverageType,
    pub monthly_premium: i128,
    pub coverage_amount: i128,
    pub active: bool,
    pub next_payment_date: u64,
}

/// Model of an `ArchivedPolicy`.
pub struct ArchivedModel {
    pub id: u32,
    pub owner: Seq<u8>,
    pub name: Seq<u8>,
    pub external_ref: Option<Seq<u8>>,
    pub coverage_type: CoverageType,
    pub monthly_premium: i128,
    pub coverage_amount: i128,
    pub archived_at: u64,
    pub next_payment_date: u64,
}

/// Model of an `InsuranceEvent`.
pub enum EventModel {
    PolicyCreated {
        policy_id: u32,
        owner: Seq<u8>,
        coverage_type: CoverageType,
        monthly_premium: i128,
        coverage_amount: i128,
        timestamp: u64,
    },
    PremiumPaid { policy_id: u32, owner: Seq<u8>, amount: i128, next_payment_date: u64, timestamp: u64 },
    PolicyDeactivated { policy_id: u32, owner: Seq<u8>, timestamp: u64 },
    ExternalRefUpdated {
        policy_id: u32,
        owner: Seq<u8>,
        old_external_ref: Option<Seq<u8>>,
        new_external_ref: Option<Seq<u8>>,
        timestamp: u64,
    },
}

/// The bytes of an optional byte string.
pub open spec fn opt_bytes(o: Option<Vec<u8>>) -> Option<Seq<u8>> {
    match o {
        Some(v) => Some(v@),
        None => None,
    }
}

impl View for InsurancePolicy {
    type V = PolicyModel;

    open spec fn view(&self) -> PolicyModel {
        PolicyModel {
            id: self.id,
            owner: self.owner@,
            name: self.name@,
            external_ref: opt_bytes(self.external_ref),
            coverage_type: self.coverage_type,
            monthly_premium: self.monthly_premium,
            coverage_amount: self.coverage_amount,
            active: self.active,
            next_payment_date: self.next_payment_date,
        }
    }
}

impl View for ArchivedPolicy {
    type V = ArchivedModel;

    open spec fn view(&self) -> ArchivedModel {
        ArchivedModel {
            id: self.id,
            owner: self.owner@,
            name: self.name@,
            external_ref: opt_bytes(self.external_ref),
            coverage_type: self.coverage_type,
            monthly_premium: self.monthly_premium,
            coverage_amount: self.coverage_amount,
            archived_at: self.archived_at,
            next_payment_date: self.next_payment_date,
        }
    }
}

impl View for InsuranceEvent {
    type V = EventModel;

    open spec fn view(&self) -> EventModel {
        match self {
            InsuranceEvent::PolicyCreated(e) => EventModel::PolicyCreated {
                policy_id: e.policy_id,
                owner: e.owner@,
                coverage_type: e.coverage_type,
                monthly_premium: e.monthly_premium,
                coverage_amount: e.coverage_amount,
                timestamp: e.timestamp,
            },
            InsuranceEvent::PremiumPaid(e) => EventModel::PremiumPaid {
                policy_id: e.policy_id,
                owner: e.owner@,
                amount: e.amount,
                next_payment_date: e.next_payment_date,
                timestamp: e.timestamp,
            },
            InsuranceEvent::PolicyDeactivated(e) => EventModel::PolicyDeactivated {
                policy_id: e.policy_id,
                owner: e.owner@,
                timestamp: e.timestamp,
            },
            InsuranceEvent::ExternalRefUpdated(e) => EventModel::ExternalRefUpdated {
                policy_id: e.policy_id,
                owner: e.owner@,
                old_external_ref: opt_bytes(e.old_external_ref),
                new_external_ref: opt_bytes(e.new_external_ref),
                timestamp: e.timestamp,
            },
        }
    }
}

impl EventModel {
    /// The category under which an event is published, when it is published
    /// through the shared Remitwise topic scheme; external-reference updates
    /// are published under their own topic and have none.
    pub open spec fn category(self) -> Option<EventCategory> {
        match self {
            EventModel::PolicyCreated { .. } => Some(EventCategory::Transaction),
            EventModel::PremiumPaid { .. } => Some(EventCategory::Transaction),
            EventModel::PolicyDeactivated { .. } => Some(EventCategory::State),
            EventModel::ExternalRefUpdated { .. } => None,
        }
    }

    /// The priority under which an event is published through the shared
    /// Remitwise topic scheme.
    pub open spec fn priority(self) -> Option<EventPriority> {
        match self {
            EventModel::PolicyCreated { .. } => Some(EventPriority::Medium),
            EventModel::PremiumPaid { .. } => Some(EventPriority::Low),
            EventModel::PolicyDeactivated { .. } => Some(EventPriority::Medium),
            EventModel::ExternalRefUpdated { .. } => None,
        }
    }
}

impl InsuranceEvent {
    /// Category and priority under which the event goes out through the
    /// shared Remitwise topic scheme, or `None` for an external-reference
    /// update, which has a topic of its own.
    pub fn classification(&self) -> (r: Option<(EventCategory, EventPriority)>)
        ensures
            r is Some <==> self@.category() is Some,
            r matches Some(c) ==> Some(c.0) == self@.category() && Some(c.1) == self@.priority(),
    {
        match self {
            InsuranceEvent::PolicyCreated(_) => Some((EventCategory::Transaction, EventPriority::Medium)),
            InsuranceEvent::PremiumPaid(_) => Some((EventCategory::Transaction, EventPriority::Low)),
            InsuranceEvent::PolicyDeactivated(_) => Some((EventCategory::State, EventPriority::Medium)),
            InsuranceEvent::ExternalRefUpdated(_) => None,
        }
    }
}

/// A copy of a byte string.
pub fn copy_bytes(v: &Vec<u8>) -> (r: Vec<u8>)
    ensures
        r@ == v@,
{
    let mut r: Vec<u8> = Vec::new();
    let mut i: usize = 0;
    while i < v.len()
        invariant
            i <= v@.len(),
            r@ == v@.take(i as int),
        decreases v@.len() - i,
    {
        r.push(v[i]);
        assert(v@.take(i as int + 1) =~= v@.take(i as int).push(v@[i as int]));
        i = i + 1;
    }
    assert(v@.take(i as int) =~= v@);
    r
}

/// A copy of an optional byte string.
pub fn copy_opt_bytes(v: &Option<Vec<u8>>) -> (r: Option<Vec<u8>>)
    ensures
        opt_bytes(r) == opt_bytes(*v),
{
    match v {
        Some(b) => Some(copy_bytes(b)),
        None => None,
    }
}

/// Whether two optional byte strings are equal.
pub fn opt_bytes_eq(a: &Option<Vec<u8>>, b: &Option<Vec<u8>>) -> (r: bool)
    ensures
        r == (opt_bytes(*a) == opt_bytes(*b)),
{
    match (a, b) {
        (Some(x), Some(y)) => {
            let e = *x == *y;
            proof {
                if e {
                    assert(x@ =~= y@);
                } else {
                    assert(!(x@ =~= y@));
                }
            }
            e
        },
        (None, None) => true,
        _ => false,
    }
}

/// Whether two byte strings are equal.
pub fn bytes_eq(a: &Vec<u8>, b: &Vec<u8>) -> (r: bool)
    ensures
        r == (a@ == b@),
{
    let e = *a == *b;
    proof {
        if e {
            assert(a@ =~= b@);
        } else {
            assert(!(a@ =~= b@));
        }
    }
    e
}

impl InsurancePolicy {
    /// A field-by-field copy of the policy.
    pub fn copied(&self) -> (r: InsurancePolicy)
        ensures
            r@ == self@,
    {
        InsurancePolicy {
            id: self.id,
            owner: copy_bytes(&self.owner),
            name: copy_bytes(&self.name),
            external_ref: copy_opt_bytes(&self.external_ref),
            coverage_type: self.coverage_type,
            monthly_premium: self.monthly_premium,
            coverage_amount: self.coverage_amount,
            active: self.active,
            next_payment_date: self.next_payment_date,
        }
    }
}

impl ArchivedPolicy {
    /// A field-by-field copy of the archived record.
    pub fn copied(&self) -> (r: ArchivedPolicy)
        ensures
            r@ == self@,
    {
        ArchivedPolicy {
            id: self.id,
            owner: copy_bytes(&self.owner),
            name: copy_bytes(&self.name),
            external_ref: copy_opt_bytes(&self.external_ref),
            coverage_type: self.coverage_type,
            monthly_premium: self.monthly_premium,
            coverage_amount: self.coverage_amount,
            archived_at: self.archived_at,
            next_payment_date: self.next_payment_date,
        }
    }
}

} // verus!
