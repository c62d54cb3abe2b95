// Premium scheduling under on-time, late and missed payments: every payment
// moves the due date to thirty days after the payment time.

use insurance::{CoverageType, Insurance};

const MONTH_SECONDS: u64 = 30 * 86_400;
const DAY_SECONDS: u64 = 86_400;

fn setup_env() -> (Insurance, Vec<u8>) {
    let mut client = Insurance::new();
    let admin = b"GADMIN".to_vec();
    client.set_pause_admin(admin.clone(), admin.clone());
    (client, admin)
}

fn owner() -> Vec<u8> {
    b"GOWNER".to_vec()
}

fn create_test_policy(client: &mut Insurance, owner: &Vec<u8>, monthly_premium: i128, now: u64) -> u32 {
    client
        .create_policy(
            owner.clone(),
            b"Test Policy".to_vec(),
            CoverageType::Health,
            monthly_premium,
            10_000i128,
            None,
            now,
        )
        .unwrap()
}

fn due(client: &Insurance, policy_id: u32) -> u64 {
    client.get_policy(policy_id).unwrap().next_payment_date
}

#[test]
fn test_on_time_payment_at_exact_boundary() {
    let (mut client, _) = setup_env();
    let owner = owner();
    let creation_time = 1_000_000u64;
    let policy_id = create_test_policy(&mut client, &owner, 1_000i128, creation_time);
    let initial_next_payment = due(&client, policy_id);
    assert_eq!(
        initial_next_payment,
        creation_time + MONTH_SECONDS,
        "On creation, next_payment_date must be exactly 30 days ahead"
    );
    client.pay_premium(owner.clone(), policy_id, initial_next_payment);
    assert_eq!(
        due(&client, policy_id),
        initial_next_payment + MONTH_SECONDS,
        "On-time payment at exact boundary must advance exactly one period (30 days)"
    );
}

#[test]
fn test_on_time_payment_one_second_before_boundary() {
    let (mut client, _) = setup_env();
    let owner = owner();
    let creation_time = 1_000_000u64;
    let policy_id = create_test_policy(&mut client, &owner, 1_000i128, creation_time);
    let initial_next_payment = due(&client, policy_id);
    let time_before_deadline = initial_next_payment.saturating_sub(1);
    client.pay_premium(owner.clone(), policy_id, time_before_deadline);
    assert_eq!(
        due(&client, policy_id),
        time_before_deadline + MONTH_SECONDS,
        "Payment one second early advances by 30 days from payment time"
    );
}

#[test]
fn test_on_time_payment_one_second_after_boundary() {
    let (mut client, _) = setup_env();
    let owner = owner();
    let creation_time = 1_000_000u64;
    let policy_id = create_test_policy(&mut client, &owner, 1_000i128, creation_time);
    let initial_next_payment = due(&client, policy_id);
    let time_after_deadline = initial_next_payment.saturating_add(1);
    client.pay_premium(owner.clone(), policy_id, time_after_deadline);
    assert_eq!(
        due(&client, policy_id),
        time_after_deadline + MONTH_SECONDS,
        "Payment 1 second late advances by exactly one period from payment time"
    );
}

#[test]
fn test_late_payment_one_day() {
    let (mut client, _) = setup_env();
    let owner = owner();
    let creation_time = 1_000_000u64;
    let policy_id = create_test_policy(&mut client, &owner, 1_000i128, creation_time);
    let initial_next_payment = due(&client, policy_id);
    let late_time = initial_next_payment + DAY_SECONDS;
    client.pay_premium(owner.clone(), policy_id, late_time);
    let new_next_payment = due(&client, policy_id);
    assert_eq!(
        new_next_payment,
        late_time + MONTH_SECONDS,
        "Late payment by 1 day advances by exactly one period from payment time"
    );
    assert_eq!(
        new_next_payment,
        initial_next_payment + DAY_SECONDS + MONTH_SECONDS,
        "Relative to original deadline, new deadline is original + 1 day + 1 month"
    );
}

#[test]
fn test_late_payment_one_week() {
    let (mut client, _) = setup_env();
    let owner = owner();
    let creation_time = 1_000_000u64;
    let policy_id = create_test_policy(&mut client, &owner, 1_000i128, creation_time);
    let initial_next_payment = due(&client, policy_id);
    let late_time = initial_next_payment + (7 * DAY_SECONDS);
    client.pay_premium(owner.clone(), policy_id, late_time);
    assert_eq!(
        due(&client, policy_id),
        late_time + MONTH_SECONDS,
        "Late payment by 7 days advances by exactly one period"
    );
}

#[test]
fn test_late_payment_twentynine_days() {
    let (mut client, _) = setup_env();
    let owner = owner();
    let creation_time = 1_000_000u64;
    let policy_id = create_test_policy(&mut client, &owner, 1_000i128, creation_time);
    let initial_next_payment = due(&client, policy_id);
    let late_time = initial_next_payment + (29 * DAY_SECONDS);
    client.pay_premium(owner.clone(), policy_id, late_time);
    assert_eq!(
        due(&client, policy_id),
        late_time + MONTH_SECONDS,
        "Late payment by 29 days advances by one period only"
    );
}

#[test]
fn test_missed_payment_two_months() {
    let (mut client, _) = setup_env();
    let owner = owner();
    let creation_time = 1_000_000u64;
    let policy_id = create_test_policy(&mut client, &owner, 1_000i128, creation_time);
    let initial_next_payment = due(&client, policy_id);
    let missed_payment_time = creation_time + (60 * DAY_SECONDS);
    client.pay_premium(owner.clone(), policy_id, missed_payment_time);
    let new_next_payment = due(&client, policy_id);
    assert_eq!(
        new_next_payment,
        missed_payment_time + MONTH_SECONDS,
        "Missed payment after 2 months advances by one period only"
    );
    assert_eq!(
        new_next_payment,
        initial_next_payment + (30 * DAY_SECONDS) + MONTH_SECONDS,
        "New deadline is original + 30 days (missed period) + 30 days (new period)"
    );
}

#[test]
fn test_missed_payment_three_months() {
    let (mut client, _) = setup_env();
    let owner = owner();
    let creation_time = 1_000_000u64;
    let policy_id = create_test_policy(&mut client, &owner, 1_000i128, creation_time);
    let _initial_next_payment = due(&client, policy_id);
    let missed_payment_time = creation_time + (90 * DAY_SECONDS);
    client.pay_premium(owner.clone(), policy_id, missed_payment_time);
    assert_eq!(
        due(&client, policy_id),
        missed_payment_time + MONTH_SECONDS,
        "Missed payment after 3 months still advances by exactly one period"
    );
}

#[test]
fn test_missed_payment_one_year() {
    let (mut client, _) = setup_env();
    let owner = owner();
    let creation_time = 1_000_000u64;
    let policy_id = create_test_policy(&mut client, &owner, 1_000i128, creation_time);
    let _initial_next_payment = due(&client, policy_id);
    let missed_payment_time = creation_time + (365 * DAY_SECONDS);
    client.pay_premium(owner.clone(), policy_id, missed_payment_time);
    assert_eq!(
        due(&client, policy_id),
        missed_payment_time + MONTH_SECONDS,
        "Even after 1 year of non-payment, schedule advances by one period"
    );
}

#[test]
fn test_two_consecutive_on_time_payments_maintain_spacing() {
    let (mut client, _) = setup_env();
    let owner = owner();
    let creation_time = 1_000_000u64;
    let policy_id = create_test_policy(&mut client, &owner, 1_000i128, creation_time);
    let deadline_1 = due(&client, policy_id);
    assert_eq!(deadline_1, creation_time + MONTH_SECONDS);
    client.pay_premium(owner.clone(), policy_id, deadline_1);
    let deadline_2 = due(&client, policy_id);
    assert_eq!(deadline_2, deadline_1 + MONTH_SECONDS);
    client.pay_premium(owner.clone(), policy_id, deadline_2);
    let deadline_3 = due(&client, policy_id);
    assert_eq!(deadline_3, deadline_2 + MONTH_SECONDS);
    let spacing_1 = deadline_2 - deadline_1;
    let spacing_2 = deadline_3 - deadline_2;
    assert_eq!(spacing_1, MONTH_SECONDS);
    assert_eq!(spacing_2, MONTH_SECONDS);
    assert_eq!(spacing_1, spacing_2);
}

#[test]
fn test_late_payment_then_on_time_payment_resynchronizes() {
    let (mut client, _) = setup_env();
    let owner = owner();
    let creation_time = 1_000_000u64;
    let policy_id = create_test_policy(&mut client, &owner, 1_000i128, creation_time);
    let deadline_1 = due(&client, policy_id);
    let late_payment_time = deadline_1 + (10 * DAY_SECONDS);
    client.pay_premium(owner.clone(), policy_id, late_payment_time);
    let deadline_2 = due(&client, policy_id);
    assert_eq!(deadline_2, late_payment_time + MONTH_SECONDS);
    client.pay_premium(owner.clone(), policy_id, deadline_2);
    let deadline_3 = due(&client, policy_id);
    let spacing_1 = deadline_2 - late_payment_time;
    let spacing_2 = deadline_3 - deadline_2;
    assert_eq!(spacing_1, MONTH_SECONDS);
    assert_eq!(spacing_2, MONTH_SECONDS);
}

#[test]
fn test_multiple_missed_payments_and_recovery() {
    let (mut client, _) = setup_env();
    let owner = owner();
    let creation_time = 1_000_000u64;
    let policy_id = create_test_policy(&mut client, &owner, 1_000i128, creation_time);
    let deadline_1 = due(&client, policy_id);
    let first_late = deadline_1 + (20 * DAY_SECONDS);
    client.pay_premium(owner.clone(), policy_id, first_late);
    let deadline_2 = due(&client, policy_id);
    assert_eq!(deadline_2, first_late + MONTH_SECONDS);
    let second_late = deadline_2 + (30 * DAY_SECONDS);
    client.pay_premium(owner.clone(), policy_id, second_late);
    let deadline_3 = due(&client, policy_id);
    assert_eq!(deadline_3, second_late + MONTH_SECONDS);
    client.pay_premium(owner.clone(), policy_id, deadline_3);
    let deadline_4 = due(&client, policy_id);
    assert_eq!(deadline_4, deadline_3 + MONTH_SECONDS);
    let space_1_to_2 = deadline_2 - first_late;
    let space_2_to_3 = deadline_3 - second_late;
    let space_3_to_4 = deadline_4 - deadline_3;
    assert_eq!(space_1_to_2, MONTH_SECONDS);
    assert_eq!(space_2_to_3, MONTH_SECONDS);
    assert_eq!(space_3_to_4, MONTH_SECONDS);
}

#[test]
fn test_premium_paid_event_next_payment_date_is_correct_after_time_jump() {
    let (mut client, _) = setup_env();
    let owner = owner();
    let creation_time = 1_000_000u64;
    let policy_id = create_test_policy(&mut client, &owner, 1_000i128, creation_time);
    let _deadline_1 = due(&client, policy_id);
    let payment_time = creation_time + (50 * DAY_SECONDS);
    client.pay_premium(owner.clone(), policy_id, payment_time);
    let expected_next_deadline = payment_time + MONTH_SECONDS;
    assert_eq!(due(&client, policy_id), expected_next_deadline);
}

#[test]
fn test_payment_at_genesis_timestamp_zero() {
    let (mut client, _) = setup_env();
    let owner = owner();
    let policy_id = create_test_policy(&mut client, &owner, 1_000i128, 0);
    assert_eq!(due(&client, policy_id), MONTH_SECONDS);
    client.pay_premium(owner.clone(), policy_id, MONTH_SECONDS);
    assert_eq!(due(&client, policy_id), 2 * MONTH_SECONDS);
}

#[test]
fn test_payment_near_max_timestamp() {
    let (mut client, _) = setup_env();
    let owner = owner();
    let near_max = u64::MAX - 100_000_000u64;
    let policy_id = create_test_policy(&mut client, &owner, 1_000i128, near_max);
    let created_next = due(&client, policy_id);
    client.pay_premium(owner.clone(), policy_id, created_next.min(near_max + MONTH_SECONDS));
    let new_next = due(&client, policy_id);
    assert!(new_next >= created_next || new_next == 0, "Schedule must not go backward");
}

#[test]
fn test_batch_pay_premiums_updates_next_payment_date_uniformly() {
    let (mut client, _) = setup_env();
    let owner = owner();
    let creation_time = 1_000_000u64;
    let policy_id_1 = create_test_policy(&mut client, &owner, 500i128, creation_time);
    let policy_id_2 = create_test_policy(&mut client, &owner, 600i128, creation_time);
    let policy_id_3 = create_test_policy(&mut client, &owner, 700i128, creation_time);
    let ids = vec![policy_id_1, policy_id_2, policy_id_3];
    let batch_payment_time = creation_time + (40 * DAY_SECONDS);
    client.batch_pay_premiums(owner.clone(), ids, batch_payment_time);
    let expected_next = batch_payment_time + MONTH_SECONDS;
    assert_eq!(due(&client, policy_id_1), expected_next);
    assert_eq!(due(&client, policy_id_2), expected_next);
    assert_eq!(due(&client, policy_id_3), expected_next);
}

#[test]
fn test_next_payment_date_formula_is_deterministic() {
    let (mut client, _) = setup_env();
    let owner = owner();
    let test_times: [u64; 4] = [1_000_000u64, 5_000_000u64, 10_000_000u64, 100_000_000u64];
    for test_time in test_times.iter() {
        let policy_id = create_test_policy(&mut client, &owner, 1_000i128, *test_time);
        let expected = test_time + MONTH_SECONDS;
        assert_eq!(
            due(&client, policy_id),
            expected,
            "At timestamp {}, next_payment_date must equal timestamp + 2,592,000",
            test_time
        );
    }
}
