use asset_ledger::AssetTableTest;
use asset_ledger::Event;

fn reg_event(l: &AssetTableTest, i: usize) -> (i64, String, u128) {
    match &l.event_log()[i] {
        Event::Register(e) => (e.ret_code, e.account.clone(), e.asset_value),
        Event::Transfer(_) => panic!("expected a register event"),
    }
}

fn xfer_event(l: &AssetTableTest, i: usize) -> (i64, String, String, u128) {
    match &l.event_log()[i] {
        Event::Transfer(e) => (e.ret_code, e.from.clone(), e.to.clone(), e.value),
        Event::Register(_) => panic!("expected a transfer event"),
    }
}

#[test]
fn select_on_fresh_ledger_is_not_found_zero() {
    let l = AssetTableTest::new();
    assert_eq!(l.select(String::from("alice")), (false, 0));
    assert_eq!(l.event_log().len(), 0);
}

#[test]
fn register_then_select_returns_initial_balance() {
    let mut l = AssetTableTest::new();
    let code = l.register(String::from("alice"), 100);
    assert_eq!(code, 0);
    assert_eq!(l.select(String::from("alice")), (true, 100));
}

#[test]
fn register_zero_balance() {
    let mut l = AssetTableTest::new();
    assert_eq!(l.register(String::from("alice"), 0), 0);
    assert_eq!(l.select(String::from("alice")), (true, 0));
}

#[test]
fn register_existing_account_fails_and_keeps_balance() {
    let mut l = AssetTableTest::new();
    assert_eq!(l.register(String::from("alice"), 100), 0);
    assert_eq!(l.register(String::from("alice"), 5), -1);
    assert_eq!(l.select(String::from("alice")), (true, 100));
}

#[test]
fn register_emits_one_event_per_call_with_matching_code() {
    let mut l = AssetTableTest::new();
    let c1 = l.register(String::from("alice"), 100);
    assert_eq!(l.event_log().len(), 1);
    assert_eq!(reg_event(&l, 0), (c1, String::from("alice"), 100));
    let c2 = l.register(String::from("alice"), 7);
    assert_eq!(l.event_log().len(), 2);
    assert_eq!(reg_event(&l, 1), (c2, String::from("alice"), 7));
    assert_eq!(c2, -1);
}

#[test]
fn transfer_from_unregistered_source() {
    let mut l = AssetTableTest::new();
    l.register(String::from("bob"), 10);
    let t = l.transfer(String::from("alice"), String::from("bob"), 1);
    assert_eq!(t, -1);
    assert_eq!(l.select(String::from("alice")), (false, 0));
    assert_eq!(l.select(String::from("bob")), (true, 10));
    assert_eq!(xfer_event(&l, 1), (t, String::from("alice"), String::from("bob"), 1));
}

#[test]
fn transfer_to_unregistered_destination() {
    let mut l = AssetTableTest::new();
    l.register(String::from("alice"), 100);
    let t = l.transfer(String::from("alice"), String::from("bob"), 1);
    assert_eq!(t, -2);
    assert_eq!(l.select(String::from("alice")), (true, 100));
    assert_eq!(l.select(String::from("bob")), (false, 0));
    assert_eq!(xfer_event(&l, 1), (t, String::from("alice"), String::from("bob"), 1));
}

#[test]
fn transfer_with_insufficient_funds() {
    let mut l = AssetTableTest::new();
    l.register(String::from("alice"), 100);
    l.register(String::from("bob"), 10);
    let t = l.transfer(String::from("alice"), String::from("bob"), 101);
    assert_eq!(t, -3);
    assert_eq!(l.select(String::from("alice")), (true, 100));
    assert_eq!(l.select(String::from("bob")), (true, 10));
    assert_eq!(xfer_event(&l, 2), (t, String::from("alice"), String::from("bob"), 101));
}

#[test]
fn transfer_overflowing_the_destination() {
    let mut l = AssetTableTest::new();
    l.register(String::from("alice"), 100);
    l.register(String::from("bob"), u128::MAX);
    let t = l.transfer(String::from("alice"), String::from("bob"), 1);
    assert_eq!(t, -4);
    assert_eq!(l.select(String::from("alice")), (true, 100));
    assert_eq!(l.select(String::from("bob")), (true, u128::MAX));
    assert_eq!(xfer_event(&l, 2), (t, String::from("alice"), String::from("bob"), 1));
}

#[test]
fn successful_transfer_moves_the_amount() {
    let mut l = AssetTableTest::new();
    l.register(String::from("alice"), 100);
    l.register(String::from("bob"), 10);
    let t = l.transfer(String::from("alice"), String::from("bob"), 30);
    assert_eq!(t, 1);
    assert_eq!(l.select(String::from("alice")), (true, 70));
    assert_eq!(l.select(String::from("bob")), (true, 40));
    assert_eq!(l.event_log().len(), 3);
    assert_eq!(xfer_event(&l, 2), (t, String::from("alice"), String::from("bob"), 30));
}

#[test]
fn transfer_of_zero_succeeds_and_changes_nothing() {
    let mut l = AssetTableTest::new();
    l.register(String::from("alice"), 100);
    l.register(String::from("bob"), 10);
    assert_eq!(l.transfer(String::from("alice"), String::from("bob"), 0), 1);
    assert_eq!(l.select(String::from("alice")), (true, 100));
    assert_eq!(l.select(String::from("bob")), (true, 10));
}

#[test]
fn transfer_of_the_whole_balance() {
    let mut l = AssetTableTest::new();
    l.register(String::from("alice"), 100);
    l.register(String::from("bob"), 10);
    assert_eq!(l.transfer(String::from("alice"), String::from("bob"), 100), 1);
    assert_eq!(l.select(String::from("alice")), (true, 0));
    assert_eq!(l.select(String::from("bob")), (true, 110));
}

#[test]
fn transfer_to_self_credits_the_stale_balance() {
    // Both balances are read before either write, and the credit is computed
    // from the stale read, so a self-transfer nets a gain of the amount.
    let mut l = AssetTableTest::new();
    l.register(String::from("alice"), 100);
    assert_eq!(l.transfer(String::from("alice"), String::from("alice"), 30), 1);
    assert_eq!(l.select(String::from("alice")), (true, 130));
}

#[test]
fn select_twice_returns_identical_results() {
    let mut l = AssetTableTest::new();
    l.register(String::from("alice"), 42);
    assert_eq!(
        l.select(String::from("alice")),
        l.select(String::from("alice")),
    );
    assert_eq!(
        l.select(String::from("bob")),
        l.select(String::from("bob")),
    );
}

#[test]
fn update_writes_one_row_for_an_existing_account() {
    let mut l = AssetTableTest::new();
    l.register(String::from("alice"), 100);
    assert_eq!(l.update(String::from("alice"), 25), 1);
    assert_eq!(l.select(String::from("alice")), (true, 25));
}

#[test]
fn update_writes_no_row_for_a_missing_account() {
    let mut l = AssetTableTest::new();
    assert_eq!(l.update(String::from("alice"), 25), 0);
    assert_eq!(l.select(String::from("alice")), (false, 0));
}

#[test]
fn update_emits_no_event() {
    let mut l = AssetTableTest::new();
    l.register(String::from("alice"), 100);
    let before = l.event_log().len();
    l.update(String::from("alice"), 25);
    assert_eq!(l.event_log().len(), before);
}

#[test]
fn large_balances_round_trip_through_storage() {
    let mut l = AssetTableTest::new();
    l.register(String::from("alice"), u128::MAX);
    assert_eq!(l.select(String::from("alice")), (true, u128::MAX));
    l.register(String::from("bob"), 0);
    assert_eq!(l.transfer(String::from("alice"), String::from("bob"), u128::MAX), 1);
    assert_eq!(l.select(String::from("alice")), (true, 0));
    assert_eq!(l.select(String::from("bob")), (true, u128::MAX));
}
