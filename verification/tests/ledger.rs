use opensplit::balance::compute_balance_from_group;
use opensplit::balance::compute_user_balance_by_group;
use opensplit::schemas::check_if_user_is_in_group;
use opensplit::schemas::divide_toward_zero;
use opensplit::schemas::group_has_receivers;
use opensplit::schemas::Expense;
use opensplit::schemas::Group;

fn spent(amount: i64, payer: &str, receivers: &[&str]) -> Expense {
    Expense {
        name: "shopping".to_string(),
        amount,
        payer: payer.to_string(),
        receivers: receivers.iter().map(|r| r.to_string()).collect(),
    }
}

fn named_group(id: &str, name: &str, expenses: Vec<Expense>) -> Group {
    Group { id: id.to_string(), name: name.to_string(), expenses }
}

fn ledger_of(expenses: Vec<Expense>) -> Vec<(String, i128)> {
    compute_balance_from_group(&named_group("g", "G", expenses))
        .into_iter()
        .map(|b| (b.id, b.balance))
        .collect()
}

fn entry(id: &str, balance: i128) -> (String, i128) {
    (id.to_string(), balance)
}

#[test]
fn balances_of_an_even_split_add_up_to_zero() {
    let ledger = ledger_of(vec![
        spent(9000, "ann", &["ann", "bob", "cat"]),
        spent(4000, "bob", &["ann", "dan"]),
        spent(1200, "cat", &["ann", "bob", "cat", "dan"]),
    ]);
    assert_eq!(
        ledger,
        vec![entry("ann", 3700), entry("bob", 700), entry("cat", -2100), entry("dan", -2300)]
    );
    assert_eq!(ledger.iter().map(|(_, b)| b).sum::<i128>(), 0);
}

#[test]
fn balances_add_up_to_zero_where_amounts_do_not_divide() {
    // 100 among 3 leaves 1, charged to the first slot; 50 among 4 leaves 2,
    // charged to the first two.
    let ledger = ledger_of(vec![
        spent(100, "ann", &["ann", "bob", "cat"]),
        spent(50, "bob", &["ann", "bob", "cat", "dan"]),
    ]);
    assert_eq!(
        ledger,
        vec![entry("ann", 53), entry("bob", 4), entry("cat", -45), entry("dan", -12)]
    );
    assert_eq!(ledger.iter().map(|(_, b)| b).sum::<i128>(), 0);
}

#[test]
fn units_left_over_are_charged_to_the_first_slots() {
    assert_eq!(
        ledger_of(vec![spent(10, "A", &["B", "C", "D"])]),
        vec![entry("A", 10), entry("B", -4), entry("C", -3), entry("D", -3)]
    );
    assert_eq!(
        ledger_of(vec![spent(11, "A", &["B", "C", "D"])]),
        vec![entry("A", 11), entry("B", -4), entry("C", -4), entry("D", -3)]
    );
    assert_eq!(ledger_of(vec![spent(5, "A", &["B", "B", "B"])]), vec![entry("A", 5), entry("B", -5)]);
    assert_eq!(
        ledger_of(vec![spent(2, "A", &["B", "C", "A"])]),
        vec![entry("A", 2), entry("B", -1), entry("C", -1)]
    );
}

#[test]
fn participants_come_in_the_order_of_first_mention() {
    let ledger = ledger_of(vec![spent(20, "zed", &["amy", "zed"]), spent(10, "amy", &["bea"])]);
    assert_eq!(ledger, vec![entry("zed", 10), entry("amy", 0), entry("bea", -10)]);
}

#[test]
fn a_receiver_named_twice_holds_two_shares() {
    let ledger = ledger_of(vec![spent(30, "A", &["B", "B", "C"])]);
    assert_eq!(ledger, vec![entry("A", 30), entry("B", -20), entry("C", -10)]);
}

#[test]
fn identifiers_are_case_sensitive() {
    let ledger = ledger_of(vec![spent(10, "ann", &["Ann"])]);
    assert_eq!(ledger, vec![entry("ann", 10), entry("Ann", -10)]);
}

#[test]
fn a_negative_amount_propagates() {
    // A negative amount is charged in full as well, the units left over to
    // the first slots.
    let ledger = ledger_of(vec![spent(-10, "A", &["B", "C", "D"])]);
    assert_eq!(ledger, vec![entry("A", -10), entry("B", 4), entry("C", 3), entry("D", 3)]);
}

#[test]
fn the_largest_amounts_do_not_overflow() {
    let ledger = ledger_of(vec![
        spent(i64::MAX, "A", &["B"]),
        spent(i64::MAX, "A", &["B"]),
        spent(i64::MIN, "B", &["A"]),
    ]);
    let twice = 2 * (i64::MAX as i128);
    let least = i64::MIN as i128;
    assert_eq!(ledger, vec![entry("A", twice - least), entry("B", least - twice)]);
}

#[test]
fn quotients_are_rounded_toward_zero() {
    assert_eq!(divide_toward_zero(10, 3), 3);
    assert_eq!(divide_toward_zero(-10, 3), -3);
    assert_eq!(divide_toward_zero(9, 3), 3);
    assert_eq!(divide_toward_zero(2, 3), 0);
    assert_eq!(divide_toward_zero(-2, 3), 0);
    assert_eq!(divide_toward_zero(i64::MIN, 1), i64::MIN);
    assert_eq!(divide_toward_zero(i64::MAX, usize::MAX), 0);
    let e = spent(1001, "A", &["B", "C"]);
    assert_eq!((e.charge(0), e.charge(1)), (501, 500));
    let e = spent(-7, "A", &["B", "C", "D", "E"]);
    assert_eq!((e.charge(0), e.charge(1), e.charge(2), e.charge(3)), (-2, -2, -2, -1));
    let e = spent(i64::MAX, "A", &["B", "C"]);
    assert_eq!(e.charge(0) + e.charge(1), i64::MAX as i128);
    let e = spent(i64::MIN, "A", &["B"]);
    assert_eq!(e.charge(0), i64::MIN as i128);
}

#[test]
fn standing_is_reported_group_by_group() {
    let groups = vec![
        named_group("g1", "Flat", vec![spent(30, "A", &["A", "B", "C"]), spent(12, "B", &["A", "A", "B"])]),
        named_group("g2", "Trip", vec![spent(10, "B", &["C"])]),
        named_group("g3", "Empty", vec![]),
        named_group("g4", "Gift", vec![spent(50, "C", &["A"])]),
    ];
    let standing: Vec<(String, String, i128)> = compute_user_balance_by_group("A".to_string(), groups)
        .into_iter()
        .map(|s| (s.group_id, s.group_name, s.amount))
        .collect();
    assert_eq!(
        standing,
        vec![
            ("g1".to_string(), "Flat".to_string(), 12),
            ("g2".to_string(), "Trip".to_string(), 0),
            ("g3".to_string(), "Empty".to_string(), 0),
            ("g4".to_string(), "Gift".to_string(), -50)
        ]
    );
}

#[test]
fn standing_agrees_with_the_ledger() {
    let expenses = || {
        vec![
            spent(9000, "ann", &["ann", "bob", "cat"]),
            spent(4000, "bob", &["ann", "dan"]),
            spent(1000, "cat", &["ann", "bob", "cat"]),
        ]
    };
    for (who, balance) in ledger_of(expenses()) {
        let standing = compute_user_balance_by_group(who, vec![named_group("g", "G", expenses())]);
        assert_eq!(standing.len(), 1);
        assert_eq!(standing[0].amount, balance);
    }
}

#[test]
fn membership_is_paying_or_receiving() {
    let g = named_group("g", "G", vec![spent(30, "A", &["B", "C"]), spent(5, "D", &["D"])]);
    for who in ["A", "B", "C", "D"] {
        assert!(check_if_user_is_in_group(&who.to_string(), &g));
    }
    assert!(!check_if_user_is_in_group(&"E".to_string(), &g));
    assert!(!check_if_user_is_in_group(&"a".to_string(), &g));
    assert!(!check_if_user_is_in_group(&"A".to_string(), &named_group("g", "G", vec![])));
}

#[test]
fn an_expense_without_receivers_is_found() {
    assert!(group_has_receivers(&named_group("g", "G", vec![])));
    assert!(group_has_receivers(&named_group("g", "G", vec![spent(1, "A", &["A"])])));
    assert!(!group_has_receivers(&named_group(
        "g",
        "G",
        vec![spent(1, "A", &["A"]), spent(1, "A", &[])]
    )));
}
