use opensplit::exchange::Exchange;
use opensplit::names::name_precedes;
use opensplit::netting::get_reverse_expenses;
use opensplit::schemas::Expense;

fn paid(amount: i64, payer: &str, receivers: &[&str]) -> Expense {
    Expense {
        name: String::new(),
        amount,
        payer: payer.to_string(),
        receivers: receivers.iter().map(|r| r.to_string()).collect(),
    }
}

fn payments(exchanges: &[Exchange]) -> Vec<(String, String, i128)> {
    exchanges.iter().map(|e| (e.payer.clone(), e.receiver.clone(), e.amount)).collect()
}

fn payment(payer: &str, receiver: &str, amount: i128) -> (String, String, i128) {
    (payer.to_string(), receiver.to_string(), amount)
}

#[test]
fn debts_of_a_pair_are_set_off() {
    let exchanges = get_reverse_expenses(&vec![
        paid(30, "A", &["B"]),
        paid(12, "B", &["A"]),
        paid(8, "B", &["A", "B"]),
    ]);
    assert_eq!(payments(&exchanges), vec![payment("B", "A", 14)]);
}

#[test]
fn the_direction_follows_the_larger_debt() {
    let exchanges = get_reverse_expenses(&vec![paid(5, "bob", &["amy"]), paid(2, "amy", &["bob"])]);
    assert_eq!(payments(&exchanges), vec![payment("amy", "bob", 3)]);
    let exchanges = get_reverse_expenses(&vec![paid(2, "bob", &["amy"]), paid(5, "amy", &["bob"])]);
    assert_eq!(payments(&exchanges), vec![payment("bob", "amy", 3)]);
}

#[test]
fn nobody_pays_themselves() {
    let exchanges = get_reverse_expenses(&vec![paid(30, "A", &["A"]), paid(30, "B", &["B", "B", "A"])]);
    assert_eq!(payments(&exchanges), vec![payment("A", "B", 10)]);
}

#[test]
fn a_pair_that_cancels_gets_no_payment() {
    let exchanges = get_reverse_expenses(&vec![
        paid(10, "A", &["B"]),
        paid(7, "C", &["A"]),
        paid(10, "B", &["A"]),
    ]);
    assert_eq!(payments(&exchanges), vec![payment("A", "C", 7)]);
}

#[test]
fn payments_come_in_the_order_of_their_pairs() {
    let exchanges = get_reverse_expenses(&vec![
        paid(30, "zoe", &["yan", "abe", "zoe"]),
        paid(4, "abe", &["yan"]),
        paid(6, "Zoe", &["abe"]),
    ]);
    assert_eq!(
        payments(&exchanges),
        vec![
            payment("abe", "Zoe", 6),
            payment("yan", "abe", 4),
            payment("abe", "zoe", 10),
            payment("yan", "zoe", 10)
        ]
    );
}

#[test]
fn netting_does_not_depend_on_the_order_of_expenses() {
    let expenses = |order: &[usize]| -> Vec<Expense> {
        let all = [
            paid(9000, "ann", &["ann", "bob", "cat"]),
            paid(4000, "bob", &["ann", "dan"]),
            paid(1200, "cat", &["ann", "bob", "cat", "dan"]),
            paid(700, "dan", &["bob", "bob", "cat"]),
            paid(3000, "bob", &["ann", "cat", "cat"]),
        ];
        order
            .iter()
            .map(|&k| paid(all[k].amount, &all[k].payer, &all[k].receivers.iter().map(|r| r.as_str()).collect::<Vec<_>>()))
            .collect()
    };
    let reference = payments(&get_reverse_expenses(&expenses(&[0, 1, 2, 3, 4])));
    // ann and bob owe each other 3000 and are quits.
    assert_eq!(
        reference,
        vec![
            payment("cat", "ann", 2700),
            payment("cat", "bob", 1700),
            payment("dan", "bob", 1533),
            payment("dan", "cat", 67)
        ]
    );
    for order in [[4, 3, 2, 1, 0], [2, 0, 4, 1, 3], [1, 4, 0, 3, 2], [3, 2, 1, 0, 4]] {
        assert_eq!(payments(&get_reverse_expenses(&expenses(&order))), reference);
    }
}

#[test]
fn identifiers_are_ordered_as_strings_are() {
    let names = ["", "a", "A", "ab", "abc", "abd", "b", "é", "e", "z", "zz", "ü", "日本", "日", "~", "a b", "a\u{10000}", "a\u{ffff}"];
    for a in names {
        for b in names {
            assert_eq!(name_precedes(&a.to_string(), &b.to_string()), a < b, "{a:?} before {b:?}");
        }
    }
}

#[test]
fn netting_charges_every_amount_in_full() {
    // 700 among three slots: bob holds the first two and owes 234 and 233.
    let exchanges = get_reverse_expenses(&vec![paid(700, "dan", &["bob", "bob", "cat"])]);
    assert_eq!(payments(&exchanges), vec![payment("bob", "dan", 467), payment("cat", "dan", 233)]);
    let exchanges = get_reverse_expenses(&vec![paid(5, "A", &["B", "B", "B"])]);
    assert_eq!(payments(&exchanges), vec![payment("B", "A", 5)]);
}
