//! Types and helpers shared by the Remitwise contracts: the enums that cross
//! contract boundaries, event classification codes, page-size normalization
//! and tag canonicalization.

use vstd::prelude::*;

verus! {

/// Financial categories for remittance allocation.
#[derive(Clone, Copy, Debug, PartialEq, Eq, Structural)]
pub enum Category {
    Spending,
    Savings,
    Bills,
    Insurance,
}

/// Family roles for access control.
#[derive(Clone, Copy, Debug, PartialEq, Eq, PartialOrd, Ord, Structural)]
pub enum FamilyRole {
    Owner,
    Admin,
    Member,
    Viewer,
}

/// Insurance coverage types.
#[derive(Clone, Copy, Debug, PartialEq, Eq, Structural)]
pub enum CoverageType {
    Health,
    Life,
    Property,
    Auto,
    Liability,
}

/// Event categories used for logging across all contracts.
#[derive(Clone, Copy, Debug, PartialEq, Eq, Structural)]
pub enum EventCategory {
    Transaction,
    State,
    Alert,
    System,
    Access,
}

/// Priority levels for events emitted by contracts; lower numbers are lower priority.
#[derive(Clone, Copy, Debug, PartialEq, Eq, Structural)]
pub enum EventPriority {
    Low,
    Medium,
    High,
}

impl EventCategory {
    /// The stable numeric code of a category, as it appears in event topics.
    pub open spec fn code(self) -> u32 {
        match self {
            EventCategory::Transaction => 0,
            EventCategory::State => 1,
            EventCategory::Alert => 2,
            EventCategory::System => 3,
            EventCategory::Access => 4,
        }
    }

    pub fn to_u32(self) -> (r: u32)
        ensures
            r == self.code(),
    {
        match self {
            EventCategory::Transaction => 0,
            EventCategory::State => 1,
            EventCategory::Alert => 2,
            EventCategory::System => 3,
            EventCategory::Access => 4,
        }
    }
}

impl EventPriority {
    /// The stable numeric code of a priority, as it appears in event topics.
    pub open spec fn code(self) -> u32 {
        match self {
            EventPriority::Low => 0,
            EventPriority::Medium => 1,
            EventPriority::High => 2,
        }
    }

    pub fn to_u32(self) -> (r: u32)
        ensures
            r == self.code(),
    {
        match self {
            EventPriority::Low => 0,
            EventPriority::Medium => 1,
            EventPriority::High => 2,
        }
    }
}

/// Pagination limits.
pub const DEFAULT_PAGE_LIMIT: u32 = 20;

pub const MAX_PAGE_LIMIT: u32 = 50;

/// Standardized TTL constants, in ledgers (about five seconds per ledger).
pub const DAY_IN_LEDGERS: u32 = 17280;

pub const INSTANCE_LIFETIME_THRESHOLD: u32 = 7 * DAY_IN_LEDGERS;

pub const INSTANCE_BUMP_AMOUNT: u32 = 30 * DAY_IN_LEDGERS;

pub const PERSISTENT_LIFETIME_THRESHOLD: u32 = 15 * DAY_IN_LEDGERS;

pub const PERSISTENT_BUMP_AMOUNT: u32 = 60 * DAY_IN_LEDGERS;

pub const ARCHIVE_LIFETIME_THRESHOLD: u32 = 7 * DAY_IN_LEDGERS;

pub const ARCHIVE_BUMP_AMOUNT: u32 = 180 * DAY_IN_LEDGERS;

/// Signature expiration time (24 hours in seconds).
pub const SIGNATURE_EXPIRATION: u64 = 86400;

/// Contract version.
pub const CONTRACT_VERSION: u32 = 1;

/// Maximum batch size for operations.
pub const MAX_BATCH_SIZE: u32 = 50;

/// Maximum allowed byte length for a single tag.
pub const TAG_MAX_LEN: u32 = 32;

/// The page size that a requested `limit` normalizes to.
pub open spec fn spec_clamp_limit(limit: u32) -> u32 {
    if limit == 0 {
        DEFAULT_PAGE_LIMIT
    } else if limit > MAX_PAGE_LIMIT {
        MAX_PAGE_LIMIT
    } else {
        limit
    }
}

/// Normalizes caller-supplied pagination limits for all shared paginated reads:
/// `0` asks for the default limit, values in `1..=MAX_PAGE_LIMIT` pass through,
/// larger values are capped at `MAX_PAGE_LIMIT`.
pub fn clamp_limit(limit: u32) -> (r: u32)
    ensures
        r == spec_clamp_limit(limit),
        1 <= r <= MAX_PAGE_LIMIT,
{
    if limit == 0 {
        DEFAULT_PAGE_LIMIT
    } else if limit > MAX_PAGE_LIMIT {
        MAX_PAGE_LIMIT
    } else {
        limit
    }
}

/// Normalizing a limit twice gives the same page size as normalizing it once.
pub proof fn law_clamp_limit_idempotent(limit: u32)
    ensures
        spec_clamp_limit(spec_clamp_limit(limit)) == spec_clamp_limit(limit),
        1 <= spec_clamp_limit(limit) <= MAX_PAGE_LIMIT,
{
}

/// Why a batch of tags was refused.
#[derive(Clone, Copy, Debug, PartialEq, Eq, Structural)]
pub enum TagError {
    /// The batch holds no tag.
    Empty,
    /// A tag is empty or longer than `TAG_MAX_LEN` bytes.
    InvalidLength,
    /// A tag holds a byte outside `[a-z0-9-_]` once uppercase ASCII is folded.
    InvalidChar,
}

/// ASCII uppercase letters fold to lowercase; every other byte is kept.
pub open spec fn fold_byte(b: u8) -> u8 {
    if 65 <= b <= 90 {
        (b + 32) as u8
    } else {
        b
    }
}

/// The tag charset: `a-z`, `0-9`, `-` and `_`.
pub open spec fn tag_byte_allowed(b: u8) -> bool {
    ||| 97 <= b <= 122
    ||| 48 <= b <= 57
    ||| b == 45
    ||| b == 95
}

/// The problem with one tag, if it has one.
pub open spec fn tag_problem(t: Seq<u8>) -> Option<TagError> {
    if t.len() == 0 || t.len() > TAG_MAX_LEN {
        Some(TagError::InvalidLength)
    } else if exists|j: int| 0 <= j < t.len() && !tag_byte_allowed(fold_byte(#[trigger] t[j])) {
        Some(TagError::InvalidChar)
    } else {
        None
    }
}

/// The problem of the first tag in `tags` that has one.
pub open spec fn first_tag_problem(tags: Seq<Seq<u8>>) -> Option<TagError>
    decreases tags.len(),
{
    if tags.len() == 0 {
        None
    } else {
        match first_tag_problem(tags.drop_last()) {
            Some(e) => Some(e),
            None => tag_problem(tags.last()),
        }
    }
}

/// A tag with its uppercase ASCII letters folded to lowercase.
pub open spec fn folded_tag(t: Seq<u8>) -> Seq<u8> {
    t.map_values(|b: u8| fold_byte(b))
}

fn fold_tag(tag: &Vec<u8>) -> (r: Option<Vec<u8>>)
    ensures
        r is Some <==> forall|j: int| 0 <= j < tag@.len() ==> tag_byte_allowed(fold_byte(#[trigger] tag@[j])),
        r matches Some(v) ==> v@ == folded_tag(tag@),
{
    let mut out: Vec<u8> = Vec::new();
    let mut j: usize = 0;
    while j < tag.len()
        invariant
            j <= tag@.len(),
            out@ == folded_tag(tag@.take(j as int)),
            forall|k: int| 0 <= k < j ==> tag_byte_allowed(fold_byte(#[trigger] tag@[k])),
        decreases tag@.len() - j,
    {
        let b = tag[j];
        let f: u8 = if b >= 65 && b <= 90 { b + 32 } else { b };
        if !((f >= 97 && f <= 122) || (f >= 48 && f <= 57) || f == 45 || f == 95) {
            return None;
        }
        out.push(f);
        assert(tag@.take(j as int + 1) =~= tag@.take(j as int).push(b));
        j = j + 1;
    }
    assert(tag@.take(j as int) =~= tag@);
    Some(out)
}

/// Validates and canonicalizes a batch of tags.
///
/// The batch must hold at least one tag, each tag must be between 1 and
/// `TAG_MAX_LEN` bytes, and every byte, once ASCII uppercase is folded to
/// lowercase, must be in `[a-z0-9-_]`. Tags are checked in order and the
/// first problem found is returned. On success the folded tags are returned
/// in input order.
///
/// The errors stand for the contract's aborts: the contract panics with
/// "Tags cannot be empty" on `Empty` and with "Tag must be between 1 and 32
/// characters" on `InvalidLength`, and calls its caller-supplied handler,
/// which must panic, on `InvalidChar`. The library reports them as values so
/// that it never panics; the host raises the panics.
pub fn canonicalize_tags(tags: &Vec<Vec<u8>>) -> (r: Result<Vec<Vec<u8>>, TagError>)
    ensures
        tags@.len() == 0 ==> r == Err::<Vec<Vec<u8>>, TagError>(TagError::Empty),
        tags@.len() > 0 ==> match first_tag_problem(tags@.map_values(|t: Vec<u8>| t@)) {
            Some(e) => r == Err::<Vec<Vec<u8>>, TagError>(e),
            None => r matches Ok(out) && out@.len() == tags@.len() && forall|i: int|
                0 <= i < tags@.len() ==> (#[trigger] out@[i])@ == folded_tag(tags@[i]@),
        },
{
    if tags.len() == 0 {
        return Err(TagError::Empty);
    }
    let ghost views = tags@.map_values(|t: Vec<u8>| t@);
    let mut out: Vec<Vec<u8>> = Vec::new();
    let mut i: usize = 0;
    while i < tags.len()
        invariant
            i <= tags@.len(),
            views == tags@.map_values(|t: Vec<u8>| t@),
            first_tag_problem(views.take(i as int)) is None,
            out@.len() == i,
            forall|k: int| 0 <= k < i ==> (#[trigger] out@[k])@ == folded_tag(tags@[k]@),
        decreases tags@.len() - i,
    {
        let tag = &tags[i];
        assert(views.take(i as int + 1).drop_last() =~= views.take(i as int));
        assert(views.take(i as int + 1).last() == tag@);
        if tag.len() == 0 || tag.len() > 32 {
            proof {
                lemma_first_problem_extends(views, i as int + 1);
            }
            return Err(TagError::InvalidLength);
        }
        match fold_tag(tag) {
            None => {
                proof {
                    let j = choose|j: int| 0 <= j < tag@.len() && !tag_byte_allowed(fold_byte(#[trigger] tag@[j]));
                    assert(!tag_byte_allowed(fold_byte(tag@[j])));
                    lemma_first_problem_extends(views, i as int + 1);
                }
                return Err(TagError::InvalidChar);
            },
            Some(f) => {
                out.push(f);
            },
        }
        i = i + 1;
    }
    assert(views.take(i as int) =~= views);
    Ok(out)
}

/// Once a prefix of `tags` has a problem, the first problem of the whole
/// batch is that of the prefix.
proof fn lemma_first_problem_extends(tags: Seq<Seq<u8>>, n: int)
    requires
        0 <= n <= tags.len(),
        first_tag_problem(tags.take(n)) is Some,
    ensures
        first_tag_problem(tags) == first_tag_problem(tags.take(n)),
    decreases tags.len() - n,
{
    if n < tags.len() {
        assert(tags.take(n + 1).drop_last() =~= tags.take(n));
        lemma_first_problem_extends(tags, n + 1);
    } else {
        assert(tags.take(n) =~= tags);
    }
}

/// Event emission helper: it decides the numeric parts of the topic that
/// every Remitwise event carries after the `Remitwise` namespace symbol.
pub struct RemitwiseEvents;

impl RemitwiseEvents {
    /// Category and priority codes of a single event.
    pub fn topic_codes(category: EventCategory, priority: EventPriority) -> (r: (u32, u32))
        ensures
            r == (category.code(), priority.code()),
    {
        (category.to_u32(), priority.to_u32())
    }

    /// Category and priority codes of a batch event; batch events always carry
    /// the low priority.
    pub fn batch_topic_codes(category: EventCategory) -> (r: (u32, u32))
        ensures
            r == (category.code(), EventPriority::Low.code()),
    {
        (category.to_u32(), EventPriority::Low.to_u32())
    }
}

} // verus!
