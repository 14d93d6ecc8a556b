use opensplit::exchange::Exchange;
use opensplit::exchange::PersonBalance;
use opensplit::greedy::get_simplified_balances;

fn amount(id: &str, balance: i128) -> PersonBalance {
    PersonBalance { id: id.to_string(), balance }
}

fn moves(exchanges: &[Exchange]) -> Vec<(String, String, i128)> {
    exchanges.iter().map(|e| (e.payer.clone(), e.receiver.clone(), e.amount)).collect()
}

fn to(payer: &str, receiver: &str, amount: i128) -> (String, String, i128) {
    (payer.to_string(), receiver.to_string(), amount)
}

#[test]
fn greedy_matches_largest_with_largest() {
    let exchanges = get_simplified_balances(
        vec![amount("B", 10), amount("C", 30)],
        vec![amount("A", 25), amount("D", 15)],
    );
    assert_eq!(moves(&exchanges), vec![to("C", "A", 25), to("C", "D", 5), to("B", "D", 10)]);
}

#[test]
fn equal_amounts_settle_both_at_once() {
    let exchanges = get_simplified_balances(
        vec![amount("B", 7), amount("C", 7)],
        vec![amount("A", 7), amount("D", 7)],
    );
    assert_eq!(moves(&exchanges), vec![to("C", "D", 7), to("B", "A", 7)]);
}

#[test]
fn entries_of_equal_amount_keep_their_order() {
    let exchanges = get_simplified_balances(
        vec![amount("x", 1), amount("y", 1), amount("z", 1)],
        vec![amount("a", 3)],
    );
    assert_eq!(moves(&exchanges), vec![to("z", "a", 1), to("y", "a", 1), to("x", "a", 1)]);
}

#[test]
fn a_partly_settled_party_stays_last() {
    // After the first payment A is owed 1 and stays last, before D with 9.
    let exchanges = get_simplified_balances(
        vec![amount("B", 9), amount("C", 1), amount("E", 9)],
        vec![amount("A", 10), amount("D", 9)],
    );
    assert_eq!(
        moves(&exchanges),
        vec![to("E", "A", 9), to("B", "A", 1), to("B", "D", 8), to("C", "D", 1)]
    );
}

#[test]
fn greedy_needs_fewer_payments_than_people() {
    let debtors = vec![amount("d1", 40), amount("d2", 25), amount("d3", 5), amount("d4", 30)];
    let creditors = vec![amount("c1", 10), amount("c2", 70), amount("c3", 20)];
    let exchanges = get_simplified_balances(debtors, creditors);
    assert!(exchanges.len() <= 4 + 3 - 1);
    assert_eq!(
        moves(&exchanges),
        vec![
            to("d1", "c2", 40),
            to("d4", "c2", 30),
            to("d2", "c3", 20),
            to("d2", "c1", 5),
            to("d3", "c1", 5)
        ]
    );
    let paid: i128 = exchanges.iter().map(|e| e.amount).sum();
    assert_eq!(paid, 100);
}

#[test]
fn nobody_to_settle_gives_no_payment() {
    assert!(get_simplified_balances(vec![], vec![]).is_empty());
}

#[test]
fn greedy_settles_everybody() {
    let exchanges = get_simplified_balances(
        vec![amount("B", 8), amount("C", 4), amount("D", 1)],
        vec![amount("A", 5), amount("E", 8)],
    );
    assert_eq!(
        moves(&exchanges),
        vec![to("B", "E", 8), to("C", "A", 4), to("D", "A", 1)]
    );
    let paid: i128 = exchanges.iter().map(|e| e.amount).sum();
    assert_eq!(paid, 13);
    assert!(exchanges.iter().all(|e| e.amount > 0));
}
