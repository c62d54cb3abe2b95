use insurance::{
    CoverageType, Insurance, InsuranceError, InsuranceEvent, StorageStats,
};

const MONTH: u64 = 30 * 86_400;
const MAX_PREMIUM: i128 = i128::MAX / 50;

fn acct(name: &str) -> Vec<u8> {
    name.as_bytes().to_vec()
}

fn create(ins: &mut Insurance, owner: &str, premium: i128, ext: Option<&str>, now: u64) -> Result<u32, InsuranceError> {
    ins.create_policy(
        acct(owner),
        b"Family Cover".to_vec(),
        CoverageType::Health,
        premium,
        10_000,
        ext.map(|s| s.as_bytes().to_vec()),
        now,
    )
}

#[test]
fn create_policy_reports_each_amount_error() {
    let mut ins = Insurance::new();
    let owner = acct("GA");
    let name = b"n".to_vec();
    let c = CoverageType::Life;
    assert_eq!(
        ins.create_policy(owner.clone(), name.clone(), c, 0, 100, None, 1),
        Err(InsuranceError::MonthlyPremiumTooLow)
    );
    assert_eq!(
        ins.create_policy(owner.clone(), name.clone(), c, MAX_PREMIUM + 1, 100, None, 1),
        Err(InsuranceError::MonthlyPremiumTooHigh)
    );
    assert_eq!(
        ins.create_policy(owner.clone(), name.clone(), c, 100, -5, None, 1),
        Err(InsuranceError::CoverageAmountTooLow)
    );
    assert_eq!(
        ins.create_policy(owner.clone(), name.clone(), c, 100, MAX_PREMIUM + 1, None, 1),
        Err(InsuranceError::CoverageAmountTooHigh)
    );
    assert_eq!(ins.create_policy(owner.clone(), name.clone(), c, MAX_PREMIUM, MAX_PREMIUM, None, 1), Ok(1));
    assert_eq!(ins.get_storage_stats(), StorageStats { active_policies: 1, archived_policies: 0, last_updated: 1 });
}

#[test]
fn create_policy_checks_external_reference_length() {
    let mut ins = Insurance::new();
    assert_eq!(create(&mut ins, "GA", 100, Some(""), 5), Err(InsuranceError::InvalidExternalRef));
    let long: String = std::iter::repeat('x').take(129).collect();
    assert_eq!(create(&mut ins, "GA", 100, Some(&long), 5), Err(InsuranceError::InvalidExternalRef));
    let exact: String = std::iter::repeat('x').take(128).collect();
    assert_eq!(create(&mut ins, "GA", 100, Some(&exact), 5), Ok(1));
    assert_eq!(ins.get_policy_id_by_external_ref(acct("GA"), exact.as_bytes().to_vec()), Some(1));
}

#[test]
fn duplicate_external_reference_is_per_owner() {
    let mut ins = Insurance::new();
    assert_eq!(create(&mut ins, "GA", 100, Some("ext-001"), 5), Ok(1));
    assert_eq!(create(&mut ins, "GA", 100, Some("ext-001"), 5), Err(InsuranceError::DuplicateExternalRef));
    assert_eq!(create(&mut ins, "GB", 100, Some("ext-001"), 5), Ok(2));
    assert_eq!(ins.get_policy_id_by_external_ref(acct("GB"), b"ext-001".to_vec()), Some(2));
}

#[test]
fn owner_cap_is_enforced_and_released_by_deactivation() {
    let mut ins = Insurance::new();
    for i in 0..50u32 {
        assert_eq!(create(&mut ins, "GA", 100, None, 1), Ok(i + 1));
    }
    assert_eq!(create(&mut ins, "GA", 100, None, 1), Err(InsuranceError::PolicyLimitExceeded));
    assert_eq!(create(&mut ins, "GB", 100, None, 1), Ok(51));
    assert_eq!(ins.deactivate_policy(acct("GA"), 7, 2), Ok(true));
    assert_eq!(create(&mut ins, "GA", 100, None, 3), Ok(52));
    assert_eq!(create(&mut ins, "GA", 100, None, 3), Err(InsuranceError::PolicyLimitExceeded));
}

#[test]
fn created_policy_reads_back() {
    let mut ins = Insurance::new();
    let id = create(&mut ins, "GA", 250, Some("ref"), 1_000).unwrap();
    let p = ins.get_policy(id).unwrap();
    assert_eq!(p.id, 1);
    assert_eq!(p.owner, acct("GA"));
    assert_eq!(p.name, b"Family Cover".to_vec());
    assert_eq!(p.external_ref, Some(b"ref".to_vec()));
    assert_eq!(p.coverage_type, CoverageType::Health);
    assert_eq!(p.monthly_premium, 250);
    assert_eq!(p.coverage_amount, 10_000);
    assert!(p.active);
    assert_eq!(p.next_payment_date, 1_000 + MONTH);
    assert!(ins.get_policy(2).is_none());
    assert!(ins.get_policy(0).is_none());
    let events = ins.take_events();
    assert_eq!(events.len(), 1);
    match &events[0] {
        InsuranceEvent::PolicyCreated(e) => {
            assert_eq!(e.policy_id, 1);
            assert_eq!(e.owner, acct("GA"));
            assert_eq!(e.monthly_premium, 250);
            assert_eq!(e.coverage_amount, 10_000);
            assert_eq!(e.timestamp, 1_000);
        }
        _ => panic!("unexpected event"),
    }
    assert!(ins.take_events().is_empty());
}

#[test]
fn set_external_ref_reports_each_error() {
    let mut ins = Insurance::new();
    create(&mut ins, "GA", 100, Some("a"), 1).unwrap();
    create(&mut ins, "GA", 100, Some("b"), 1).unwrap();
    create(&mut ins, "GA", 100, None, 1).unwrap();
    assert_eq!(
        ins.try_set_external_ref(acct("GA"), 99, Some(b"z".to_vec()), 2),
        Err(InsuranceError::PolicyNotFound)
    );
    assert_eq!(
        ins.try_set_external_ref(acct("GX"), 1, Some(b"z".to_vec()), 2),
        Err(InsuranceError::Unauthorized)
    );
    assert_eq!(
        ins.try_set_external_ref(acct("GA"), 1, Some(Vec::new()), 2),
        Err(InsuranceError::InvalidExternalRef)
    );
    assert_eq!(
        ins.try_set_external_ref(acct("GA"), 1, Some(b"b".to_vec()), 2),
        Err(InsuranceError::DuplicateExternalRef)
    );
    assert_eq!(ins.set_external_ref(acct("GA"), 1, Some(b"b".to_vec()), 2), false);
    ins.deactivate_policy(acct("GA"), 3, 2).unwrap();
    assert_eq!(
        ins.try_set_external_ref(acct("GA"), 3, Some(b"c".to_vec()), 2),
        Err(InsuranceError::PolicyInactive)
    );
}

#[test]
fn set_external_ref_to_current_value_changes_nothing() {
    let mut ins = Insurance::new();
    create(&mut ins, "GA", 100, Some("a"), 1).unwrap();
    ins.take_events();
    assert_eq!(ins.try_set_external_ref(acct("GA"), 1, Some(b"a".to_vec()), 2), Ok(true));
    assert!(ins.take_events().is_empty());
    assert_eq!(ins.get_policy(1).unwrap().external_ref, Some(b"a".to_vec()));
}

#[test]
fn set_external_ref_reindexes_and_reports_change() {
    let mut ins = Insurance::new();
    create(&mut ins, "GA", 100, Some("old"), 1).unwrap();
    ins.take_events();
    assert_eq!(ins.set_external_ref(acct("GA"), 1, Some(b"new".to_vec()), 9), true);
    assert_eq!(ins.get_policy_id_by_external_ref(acct("GA"), b"old".to_vec()), None);
    assert_eq!(ins.get_policy_id_by_external_ref(acct("GA"), b"new".to_vec()), Some(1));
    let events = ins.take_events();
    match &events[0] {
        InsuranceEvent::ExternalRefUpdated(e) => {
            assert_eq!(e.policy_id, 1);
            assert_eq!(e.old_external_ref, Some(b"old".to_vec()));
            assert_eq!(e.new_external_ref, Some(b"new".to_vec()));
            assert_eq!(e.timestamp, 9);
        }
        _ => panic!("unexpected event"),
    }
    assert_eq!(ins.set_external_ref(acct("GA"), 1, None, 10), true);
    assert_eq!(ins.get_policy_id_by_external_ref(acct("GA"), b"new".to_vec()), None);
    assert_eq!(ins.get_policy(1).unwrap().external_ref, None);
}

#[test]
fn deactivate_is_idempotent_and_counts_once() {
    let mut ins = Insurance::new();
    create(&mut ins, "GA", 100, Some("r"), 1).unwrap();
    create(&mut ins, "GA", 200, None, 1).unwrap();
    assert_eq!(ins.deactivate_policy(acct("GB"), 1, 5), Ok(false));
    assert_eq!(ins.deactivate_policy(acct("GA"), 42, 5), Ok(false));
    assert_eq!(ins.deactivate_policy(acct("GA"), 1, 5), Ok(true));
    assert_eq!(ins.get_storage_stats().active_policies, 1);
    assert_eq!(ins.get_storage_stats().last_updated, 5);
    assert_eq!(ins.deactivate_policy(acct("GA"), 1, 6), Ok(true));
    assert_eq!(ins.get_storage_stats().active_policies, 1);
    assert_eq!(ins.get_storage_stats().last_updated, 5);
    assert!(!ins.get_policy(1).unwrap().active);
    assert_eq!(ins.get_policy_id_by_external_ref(acct("GA"), b"r".to_vec()), None);
    assert_eq!(create(&mut ins, "GA", 100, Some("r"), 7), Ok(3));
}

#[test]
fn archive_then_restore_round_trip() {
    let mut ins = Insurance::new();
    create(&mut ins, "GA", 100, Some("r"), 1).unwrap();
    let before = ins.get_policy(1).unwrap();
    ins.take_events();
    assert_eq!(ins.try_archive_policy(acct("GA"), 1, 50), Ok(true));
    assert!(ins.get_policy(1).is_none());
    let a = ins.get_archived_policy(1).unwrap();
    assert_eq!(a.archived_at, 50);
    assert_eq!(a.next_payment_date, before.next_payment_date);
    assert_eq!(ins.get_storage_stats(), StorageStats { active_policies: 0, archived_policies: 1, last_updated: 50 });
    assert_eq!(ins.get_policy_id_by_external_ref(acct("GA"), b"r".to_vec()), None);
    match &ins.take_events()[0] {
        InsuranceEvent::PolicyDeactivated(e) => {
            assert_eq!(e.policy_id, 1);
            assert_eq!(e.timestamp, 50);
        }
        _ => panic!("unexpected event"),
    }
    assert_eq!(ins.restore_policy(acct("GA"), 1, 60), true);
    assert_eq!(ins.get_policy(1).unwrap(), before);
    assert!(ins.get_archived_policy(1).is_none());
    assert_eq!(ins.get_storage_stats(), StorageStats { active_policies: 1, archived_policies: 0, last_updated: 60 });
    assert_eq!(ins.get_policy_id_by_external_ref(acct("GA"), b"r".to_vec()), Some(1));
}

#[test]
fn archive_reports_missing_and_foreign_policies() {
    let mut ins = Insurance::new();
    create(&mut ins, "GA", 100, None, 1).unwrap();
    assert_eq!(ins.try_archive_policy(acct("GA"), 5, 2), Ok(false));
    assert_eq!(ins.try_archive_policy(acct("GB"), 1, 2), Err(InsuranceError::Unauthorized));
    assert_eq!(ins.archive_policy(acct("GB"), 1, 2), false);
    assert_eq!(ins.archive_policy(acct("GA"), 1, 2), true);
    assert_eq!(ins.archive_policy(acct("GA"), 1, 3), false);
}

#[test]
fn archiving_an_inactive_policy_keeps_active_count() {
    let mut ins = Insurance::new();
    create(&mut ins, "GA", 100, None, 1).unwrap();
    ins.deactivate_policy(acct("GA"), 1, 2).unwrap();
    ins.take_events();
    assert_eq!(ins.try_archive_policy(acct("GA"), 1, 3), Ok(true));
    assert!(ins.take_events().is_empty());
    assert_eq!(ins.get_storage_stats(), StorageStats { active_policies: 0, archived_policies: 1, last_updated: 3 });
}

#[test]
fn restore_refuses_when_it_cannot_proceed() {
    let mut ins = Insurance::new();
    create(&mut ins, "GA", 100, Some("r"), 1).unwrap();
    assert_eq!(ins.restore_policy(acct("GA"), 1, 2), false);
    ins.archive_policy(acct("GA"), 1, 2);
    assert_eq!(ins.restore_policy(acct("GB"), 1, 3), false);
    create(&mut ins, "GA", 100, Some("r"), 3).unwrap();
    assert_eq!(ins.restore_policy(acct("GA"), 1, 4), false);
    assert!(ins.get_archived_policy(1).is_some());
}

#[test]
fn pay_premium_refuses_foreign_inactive_and_missing() {
    let mut ins = Insurance::new();
    create(&mut ins, "GA", 100, None, 1).unwrap();
    create(&mut ins, "GA", 100, None, 1).unwrap();
    ins.deactivate_policy(acct("GA"), 2, 1).unwrap();
    ins.take_events();
    assert_eq!(ins.pay_premium(acct("GB"), 1, 10), false);
    assert_eq!(ins.pay_premium(acct("GA"), 2, 10), false);
    assert_eq!(ins.pay_premium(acct("GA"), 3, 10), false);
    assert!(ins.take_events().is_empty());
    assert_eq!(ins.pay_premium(acct("GA"), 1, 10), true);
    let events = ins.take_events();
    match &events[0] {
        InsuranceEvent::PremiumPaid(e) => {
            assert_eq!(e.amount, 100);
            assert_eq!(e.next_payment_date, 10 + MONTH);
            assert_eq!(e.timestamp, 10);
        }
        _ => panic!("unexpected event"),
    }
}

#[test]
fn batch_counts_only_payable_policies() {
    let mut ins = Insurance::new();
    create(&mut ins, "GA", 100, None, 1).unwrap();
    create(&mut ins, "GA", 100, None, 1).unwrap();
    create(&mut ins, "GB", 100, None, 1).unwrap();
    ins.deactivate_policy(acct("GA"), 2, 1).unwrap();
    ins.take_events();
    assert_eq!(ins.batch_pay_premiums(acct("GA"), vec![1, 2, 3, 9, 1], 500), 2);
    assert_eq!(ins.take_events().len(), 2);
    assert_eq!(ins.get_policy(1).unwrap().next_payment_date, 500 + MONTH);
    assert_eq!(ins.get_policy(3).unwrap().next_payment_date, 1 + MONTH);
}

#[test]
fn total_premium_counts_active_policies_only() {
    let mut ins = Insurance::new();
    assert_eq!(ins.get_total_monthly_premium(acct("GA")), 0);
    create(&mut ins, "GA", 100, None, 1).unwrap();
    create(&mut ins, "GA", 250, None, 1).unwrap();
    create(&mut ins, "GA", 400, None, 1).unwrap();
    create(&mut ins, "GB", 7, None, 1).unwrap();
    assert_eq!(ins.get_total_monthly_premium(acct("GA")), 750);
    ins.deactivate_policy(acct("GA"), 2, 2).unwrap();
    assert_eq!(ins.get_total_monthly_premium(acct("GA")), 500);
    ins.archive_policy(acct("GA"), 3, 2);
    assert_eq!(ins.get_total_monthly_premium(acct("GA")), 100);
    assert_eq!(ins.get_total_monthly_premium(acct("GB")), 7);
}

#[test]
fn total_premium_of_fifty_maximal_policies_fits() {
    let mut ins = Insurance::new();
    for _ in 0..50 {
        create(&mut ins, "GA", MAX_PREMIUM, None, 1).unwrap();
    }
    assert_eq!(ins.get_total_monthly_premium(acct("GA")), MAX_PREMIUM * 50);
}

#[test]
fn active_policies_are_paged_by_cursor() {
    let mut ins = Insurance::new();
    for _ in 0..5 {
        create(&mut ins, "GA", 100, None, 1).unwrap();
    }
    create(&mut ins, "GB", 100, None, 1).unwrap();
    ins.deactivate_policy(acct("GA"), 3, 1).unwrap();
    let page = ins.get_active_policies(acct("GA"), 0, 2);
    assert_eq!(page.items.iter().map(|p| p.id).collect::<Vec<_>>(), vec![1, 2]);
    assert_eq!(page.next_cursor, 2);
    assert_eq!(page.count, 2);
    let page = ins.get_active_policies(acct("GA"), page.next_cursor, 2);
    assert_eq!(page.items.iter().map(|p| p.id).collect::<Vec<_>>(), vec![4, 5]);
    assert_eq!(page.next_cursor, 0);
    let page = ins.get_active_policies(acct("GA"), 5, 2);
    assert!(page.items.is_empty());
    assert_eq!(page.count, 0);
    let page = ins.get_active_policies(acct("GC"), 0, 5);
    assert!(page.items.is_empty());
    assert_eq!(page.next_cursor, 0);
}

#[test]
fn active_policies_limit_zero_uses_default_page() {
    let mut ins = Insurance::new();
    for _ in 0..30 {
        create(&mut ins, "GA", 100, None, 1).unwrap();
    }
    let page = ins.get_active_policies(acct("GA"), 0, 0);
    assert_eq!(page.count, 20);
    assert_eq!(page.next_cursor, 20);
    let page = ins.get_active_policies(acct("GA"), 0, 9999);
    assert_eq!(page.count, 30);
    assert_eq!(page.next_cursor, 0);
}

#[test]
fn set_pause_admin_always_succeeds() {
    let mut ins = Insurance::new();
    assert!(ins.set_pause_admin(acct("GA"), acct("GB")));
}

#[test]
fn storage_parts_round_trip() {
    let mut ins = Insurance::new();
    create(&mut ins, "GA", 100, Some("r"), 1).unwrap();
    create(&mut ins, "GA", 200, None, 1).unwrap();
    create(&mut ins, "GB", 300, Some("s"), 1).unwrap();
    ins.archive_policy(acct("GA"), 2, 4);
    ins.take_events();
    let parts = ins.into_parts();
    let back = Insurance::from_parts(parts).unwrap();
    assert_eq!(back.get_policy(1).unwrap().monthly_premium, 100);
    assert!(back.get_policy(2).is_none());
    assert_eq!(back.get_archived_policy(2).unwrap().archived_at, 4);
    assert_eq!(back.get_policy_id_by_external_ref(acct("GB"), b"s".to_vec()), Some(3));
    assert_eq!(back.get_total_monthly_premium(acct("GA")), 100);
    assert_eq!(back.get_storage_stats(), StorageStats { active_policies: 2, archived_policies: 1, last_updated: 4 });
}

#[test]
fn inconsistent_parts_are_refused() {
    let mut ins = Insurance::new();
    create(&mut ins, "GA", 100, Some("r"), 1).unwrap();
    let mut parts = ins.into_parts();
    parts.stats.active_policies = 2;
    assert!(Insurance::from_parts(parts).is_none());

    let mut ins = Insurance::new();
    create(&mut ins, "GA", 100, Some("r"), 1).unwrap();
    let mut parts = ins.into_parts();
    parts.owner_active_counts[0] = 3;
    assert!(Insurance::from_parts(parts).is_none());

    let mut ins = Insurance::new();
    create(&mut ins, "GA", 100, Some("r"), 1).unwrap();
    let mut parts = ins.into_parts();
    parts.ext_index_ids[0] = 7;
    assert!(Insurance::from_parts(parts).is_none());

    let mut ins = Insurance::new();
    create(&mut ins, "GA", 100, None, 1).unwrap();
    let mut parts = ins.into_parts();
    parts.owner_index_keys.push(b"GZ".to_vec());
    parts.owner_index_ids.push(vec![1]);
    assert!(Insurance::from_parts(parts).is_none());
}

#[test]
fn test_reads_are_safe_before_init() {
    let ins = Insurance::new();
    let owner = acct("GA");
    assert!(ins.get_policy(1).is_none());
    assert_eq!(ins.get_total_monthly_premium(owner.clone()), 0);
    let page = ins.get_active_policies(owner, 0, 5);
    assert!(page.items.is_empty());
    assert_eq!(page.next_cursor, 0);
    assert_eq!(page.count, 0);
}

#[test]
fn inactive_policy_does_not_release_a_reference_held_by_a_newer_policy() {
    let mut ins = Insurance::new();
    assert_eq!(create(&mut ins, "GA", 100, Some("R"), 1), Ok(1));
    assert_eq!(ins.deactivate_policy(acct("GA"), 1, 2), Ok(true));
    assert_eq!(create(&mut ins, "GA", 100, Some("R"), 3), Ok(2));
    assert_eq!(ins.get_policy_id_by_external_ref(acct("GA"), b"R".to_vec()), Some(2));

    // Deactivating the inactive policy again changes nothing.
    assert_eq!(ins.deactivate_policy(acct("GA"), 1, 4), Ok(true));
    assert_eq!(ins.get_policy_id_by_external_ref(acct("GA"), b"R".to_vec()), Some(2));
    assert_eq!(create(&mut ins, "GA", 100, Some("R"), 5), Err(InsuranceError::DuplicateExternalRef));

    // Archiving it leaves the newer policy's binding in place too.
    assert_eq!(ins.try_archive_policy(acct("GA"), 1, 6), Ok(true));
    assert_eq!(ins.get_policy_id_by_external_ref(acct("GA"), b"R".to_vec()), Some(2));
    assert_eq!(create(&mut ins, "GA", 100, Some("R"), 7), Err(InsuranceError::DuplicateExternalRef));

    // Restoring it is refused while the reference is held.
    assert!(!ins.restore_policy(acct("GA"), 1, 8));
    assert_eq!(ins.get_storage_stats(), StorageStats { active_policies: 1, archived_policies: 1, last_updated: 6 });
}

#[test]
fn following_page_cursors_lists_every_active_policy_once() {
    let mut ins = Insurance::new();
    for k in 0..7u64 {
        create(&mut ins, "GA", 100, None, k).unwrap();
    }
    create(&mut ins, "GB", 100, None, 8).unwrap();
    ins.deactivate_policy(acct("GA"), 3, 9).unwrap();
    ins.archive_policy(acct("GA"), 6, 9);
    let mut seen = Vec::new();
    let mut cursor = 0u32;
    loop {
        let page = ins.get_active_policies(acct("GA"), cursor, 2);
        assert!(page.count <= 2);
        seen.extend(page.items.iter().map(|p| p.id));
        if page.next_cursor == 0 {
            break;
        }
        cursor = page.next_cursor;
    }
    assert_eq!(seen, vec![1, 2, 4, 5, 7]);
}
