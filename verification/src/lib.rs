//! Remitwise insurance: a policy registry with premium scheduling, external
//! references, archiving and storage statistics, and the helpers it shares
//! with the other Remitwise contracts.

pub mod common;
pub mod key_map;
pub mod policy;
pub mod model;
pub mod insurance;
pub mod laws;

pub use common::{
    canonicalize_tags, clamp_limit, Category, CoverageType, EventCategory, EventPriority,
    FamilyRole, RemitwiseEvents, TagError,
};
pub use insurance::Insurance;
pub use policy::{
    ArchivedPolicy, ExternalRefUpdatedEvent, InsuranceError, InsuranceEvent, InsurancePolicy,
    PolicyCreatedEvent, PolicyDeactivatedEvent, PolicyPage, PremiumPaidEvent, StorageStats,
};
pub use insurance::{InsuranceParts, PolicySlot};
pub use key_map::RefKey;
