use insurance::{
    canonicalize_tags, clamp_limit, EventCategory, EventPriority, RemitwiseEvents, TagError,
};

fn tags(list: &[&str]) -> Vec<Vec<u8>> {
    list.iter().map(|t| t.as_bytes().to_vec()).collect()
}

#[test]
fn clamp_limit_normalizes_page_sizes() {
    assert_eq!(clamp_limit(0), 20);
    assert_eq!(clamp_limit(1), 1);
    assert_eq!(clamp_limit(20), 20);
    assert_eq!(clamp_limit(50), 50);
    assert_eq!(clamp_limit(51), 50);
    assert_eq!(clamp_limit(u32::MAX), 50);
    for l in [0u32, 3, 50, 77, u32::MAX] {
        assert_eq!(clamp_limit(clamp_limit(l)), clamp_limit(l));
    }
}

#[test]
fn event_codes_are_stable() {
    assert_eq!(EventCategory::Transaction.to_u32(), 0);
    assert_eq!(EventCategory::State.to_u32(), 1);
    assert_eq!(EventCategory::Alert.to_u32(), 2);
    assert_eq!(EventCategory::System.to_u32(), 3);
    assert_eq!(EventCategory::Access.to_u32(), 4);
    assert_eq!(EventPriority::Low.to_u32(), 0);
    assert_eq!(EventPriority::Medium.to_u32(), 1);
    assert_eq!(EventPriority::High.to_u32(), 2);
    assert_eq!(RemitwiseEvents::topic_codes(EventCategory::Alert, EventPriority::High), (2, 2));
    assert_eq!(RemitwiseEvents::batch_topic_codes(EventCategory::System), (3, 0));
}

#[test]
fn canonicalize_tags_folds_case() {
    assert_eq!(
        canonicalize_tags(&tags(&["Rent", "FOOD_2024", "a-b"])),
        Ok(tags(&["rent", "food_2024", "a-b"]))
    );
    let max: String = std::iter::repeat('Z').take(32).collect();
    assert_eq!(canonicalize_tags(&tags(&[&max])).unwrap()[0].len(), 32);
}

#[test]
fn canonicalize_tags_reports_first_problem() {
    assert_eq!(canonicalize_tags(&Vec::new()), Err(TagError::Empty));
    assert_eq!(canonicalize_tags(&tags(&["ok", ""])), Err(TagError::InvalidLength));
    let long: String = std::iter::repeat('a').take(33).collect();
    assert_eq!(canonicalize_tags(&tags(&[&long])), Err(TagError::InvalidLength));
    assert_eq!(canonicalize_tags(&tags(&["a b"])), Err(TagError::InvalidChar));
    assert_eq!(canonicalize_tags(&tags(&["a b", ""])), Err(TagError::InvalidChar));
    assert_eq!(canonicalize_tags(&tags(&["", "a b"])), Err(TagError::InvalidLength));
    assert_eq!(canonicalize_tags(&tags(&["caf\u{e9}"])), Err(TagError::InvalidChar));
}

#[test]
fn canonical_tags_are_fixed_points() {
    let once = canonicalize_tags(&tags(&["MiXeD-Case_9"])).unwrap();
    assert_eq!(canonicalize_tags(&once).unwrap(), once);
}
