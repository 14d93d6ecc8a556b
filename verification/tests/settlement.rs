use opensplit::balance::compute_balance_from_group;
use opensplit::exchange::get_exchanges_from_group;
use opensplit::exchange::Exchange;
use opensplit::greedy::get_simplified_balances;
use opensplit::netting::get_reverse_expenses;
use opensplit::schemas::Expense;
use opensplit::schemas::Group;
use std::collections::BTreeMap;

fn expense(amount: i64, payer: &str, receivers: &[&str]) -> Expense {
    Expense {
        name: format!("{payer} pays {amount}"),
        amount,
        payer: payer.to_string(),
        receivers: receivers.iter().map(|r| r.to_string()).collect(),
    }
}

fn group(expenses: Vec<Expense>) -> Group {
    Group { id: "g1".to_string(), name: "Trip".to_string(), expenses }
}

fn balances_of(group: &Group) -> Vec<(String, i128)> {
    compute_balance_from_group(group).into_iter().map(|b| (b.id, b.balance)).collect()
}

fn in_order(exchanges: &[Exchange]) -> Vec<(String, String, i128)> {
    exchanges.iter().map(|e| (e.payer.clone(), e.receiver.clone(), e.amount)).collect()
}

fn sorted(exchanges: &[Exchange]) -> Vec<(String, String, i128)> {
    let mut out = in_order(exchanges);
    out.sort();
    out
}

fn pay(payer: &str, receiver: &str, amount: i128) -> (String, String, i128) {
    (payer.to_string(), receiver.to_string(), amount)
}

/// What the payments bring each participant: received less paid.
fn flows(exchanges: &[Exchange]) -> BTreeMap<String, i128> {
    let mut out = BTreeMap::new();
    for e in exchanges {
        *out.entry(e.receiver.clone()).or_insert(0) += e.amount;
        *out.entry(e.payer.clone()).or_insert(0) -= e.amount;
    }
    out.retain(|_, v| *v != 0);
    out
}

fn nonzero_balances(group: &Group) -> BTreeMap<String, i128> {
    balances_of(group).into_iter().filter(|(_, b)| *b != 0).collect()
}

/// The payments entered in a ledger as expenses, each paid by its payer for
/// its receiver alone.
fn replayed(exchanges: &[Exchange]) -> Group {
    group(
        exchanges
            .iter()
            .map(|e| Expense {
                name: String::new(),
                amount: e.amount as i64,
                payer: e.payer.clone(),
                receivers: vec![e.receiver.clone()],
            })
            .collect(),
    )
}

fn week_away() -> Group {
    group(vec![
        expense(9000, "ann", &["ann", "bob", "cat"]),
        expense(4000, "bob", &["ann", "dan"]),
        expense(1200, "cat", &["ann", "bob", "cat", "dan"]),
        expense(600, "dan", &["bob", "bob", "cat"]),
        expense(2500, "ann", &["eve"]),
    ])
}

#[test]
fn shared_meal_balances() {
    let g = group(vec![expense(30, "A", &["A", "B", "C"])]);
    assert_eq!(
        balances_of(&g),
        vec![("A".to_string(), 20), ("B".to_string(), -10), ("C".to_string(), -10)]
    );
}

#[test]
fn shared_meal_is_settled_by_two_payments() {
    let g = group(vec![expense(30, "A", &["A", "B", "C"])]);
    let exchanges = get_exchanges_from_group(&g);
    assert_eq!(sorted(&exchanges), vec![pay("B", "A", 10), pay("C", "A", 10)]);
}

#[test]
fn mutual_debts_cancel() {
    let g = group(vec![expense(10, "A", &["B"]), expense(10, "B", &["A"])]);
    assert_eq!(balances_of(&g), vec![("A".to_string(), 0), ("B".to_string(), 0)]);
    assert!(get_exchanges_from_group(&g).is_empty());
    assert!(get_reverse_expenses(&g.expenses).is_empty());
}

#[test]
fn cycle_is_netted_pairwise_but_settled_by_nothing() {
    let g = group(vec![expense(10, "A", &["B"]), expense(10, "B", &["C"]), expense(10, "C", &["A"])]);
    let naive = get_reverse_expenses(&g.expenses);
    assert_eq!(sorted(&naive), vec![pay("A", "C", 10), pay("B", "A", 10), pay("C", "B", 10)]);
    assert_eq!(
        balances_of(&g),
        vec![("A".to_string(), 0), ("B".to_string(), 0), ("C".to_string(), 0)]
    );
    assert!(get_simplified_balances(vec![], vec![]).is_empty());
    assert!(get_exchanges_from_group(&g).is_empty());
}

#[test]
fn tie_goes_to_the_pairwise_netting() {
    // Both candidates have two payments; they differ in order.
    let g = group(vec![expense(30, "A", &["A", "B", "C"])]);
    let naive = in_order(&get_reverse_expenses(&g.expenses));
    assert_eq!(naive, vec![pay("B", "A", 10), pay("C", "A", 10)]);
    assert_eq!(in_order(&get_exchanges_from_group(&g)), naive);
}

#[test]
fn greedy_wins_when_it_is_shorter() {
    let g = group(vec![expense(10, "A", &["B"]), expense(10, "B", &["C"])]);
    assert_eq!(get_reverse_expenses(&g.expenses).len(), 2);
    assert_eq!(in_order(&get_exchanges_from_group(&g)), vec![pay("C", "A", 10)]);
}

#[test]
fn netting_wins_when_it_is_shorter() {
    let g = group(vec![
        expense(3, "A", &["B"]),
        expense(3, "A", &["C"]),
        expense(4, "D", &["E"]),
    ]);
    let naive = in_order(&get_reverse_expenses(&g.expenses));
    assert_eq!(naive, vec![pay("B", "A", 3), pay("C", "A", 3), pay("E", "D", 4)]);
    assert_eq!(in_order(&get_exchanges_from_group(&g)), naive);
}

#[test]
fn settlement_brings_everybody_their_balance() {
    let g = week_away();
    let exchanges = get_exchanges_from_group(&g);
    assert_eq!(flows(&exchanges), nonzero_balances(&g));
    let naive = get_reverse_expenses(&g.expenses);
    assert_eq!(flows(&naive), nonzero_balances(&g));
}

#[test]
fn settlement_entered_as_expenses_undoes_every_balance() {
    let g = week_away();
    let exchanges = get_exchanges_from_group(&g);
    let before = nonzero_balances(&g);
    let after: BTreeMap<String, i128> = nonzero_balances(&replayed(&exchanges));
    let negated: BTreeMap<String, i128> = before.iter().map(|(k, v)| (k.clone(), -v)).collect();
    assert_eq!(after, negated);
    let mut all = g.expenses;
    all.extend(replayed(&exchanges).expenses);
    assert!(nonzero_balances(&group(all)).is_empty());
}

#[test]
fn empty_group_needs_nothing() {
    let g = group(vec![]);
    assert!(balances_of(&g).is_empty());
    assert!(get_exchanges_from_group(&g).is_empty());
}

#[test]
fn uneven_split_is_settled_in_full() {
    // 10 among three: the slots owe 4, 3 and 3.
    let g = group(vec![expense(10, "A", &["B", "C", "D"])]);
    assert_eq!(
        balances_of(&g),
        vec![
            ("A".to_string(), 10),
            ("B".to_string(), -4),
            ("C".to_string(), -3),
            ("D".to_string(), -3)
        ]
    );
    let exchanges = get_exchanges_from_group(&g);
    assert_eq!(in_order(&exchanges), vec![pay("B", "A", 4), pay("C", "A", 3), pay("D", "A", 3)]);
    let g = group(vec![expense(5, "A", &["B", "B", "B"])]);
    assert_eq!(in_order(&get_exchanges_from_group(&g)), vec![pay("B", "A", 5)]);
    let g = group(vec![expense(11, "A", &["B", "C", "D"])]);
    assert_eq!(flows(&get_exchanges_from_group(&g)), nonzero_balances(&g));
    assert_eq!(flows(&get_exchanges_from_group(&g)).get("A"), Some(&11));
}

/// A small generator of groups: a linear congruential sequence.
struct Draws(u64);

impl Draws {
    fn next(&mut self, below: u64) -> u64 {
        self.0 = self.0.wrapping_mul(6364136223846793005).wrapping_add(1442695040888963407);
        (self.0 >> 33) % below
    }

    /// A group of up to twelve expenses among up to six people. Where `even`
    /// is set every amount is a multiple of the number of its receivers.
    fn group(&mut self, even: bool) -> Group {
        let people = ["ann", "bob", "cat", "dan", "eve", "fay"];
        let crowd = 2 + self.next(5) as usize;
        let count = self.next(13) as usize;
        let mut expenses = Vec::new();
        for _ in 0..count {
            let payer = people[self.next(crowd as u64) as usize];
            let slots = 1 + self.next(5) as usize;
            let receivers: Vec<&str> =
                (0..slots).map(|_| people[self.next(crowd as u64) as usize]).collect();
            let amount = 1 + self.next(5000) as i64;
            let amount = if even { amount * slots as i64 } else { amount };
            expenses.push(expense(amount, payer, &receivers));
        }
        group(expenses)
    }
}

#[test]
fn every_group_is_settled_exactly() {
    let mut draws = Draws(7);
    for round in 0..600 {
        let g = draws.group(round % 2 == 0);
        let balances = nonzero_balances(&g);
        assert_eq!(balances.values().sum::<i128>(), 0);
        let naive = get_reverse_expenses(&g.expenses);
        let settled = get_exchanges_from_group(&g);
        assert_eq!(flows(&naive), balances);
        assert_eq!(flows(&settled), balances);
        assert!(settled.len() <= naive.len());
        assert!(settled.iter().all(|e| e.amount > 0 && e.payer != e.receiver));
        if !balances.is_empty() {
            assert!(settled.len() <= balances.len() - 1 || settled.len() == naive.len());
        }
    }
}

#[test]
fn every_netting_has_one_payment_per_pair_in_order() {
    let mut draws = Draws(11);
    for _ in 0..300 {
        let g = draws.group(false);
        let naive = get_reverse_expenses(&g.expenses);
        let pairs: Vec<(String, String)> = naive
            .iter()
            .map(|e| {
                if e.payer < e.receiver {
                    (e.payer.clone(), e.receiver.clone())
                } else {
                    (e.receiver.clone(), e.payer.clone())
                }
            })
            .collect();
        assert!(pairs.windows(2).all(|w| w[0] < w[1]));
        assert!(naive.iter().all(|e| e.amount > 0 && e.payer != e.receiver));
        assert_eq!(flows(&naive), nonzero_balances(&g));
    }
}

#[test]
fn greedy_settlement_stays_below_the_number_of_unsettled_people() {
    let mut draws = Draws(13);
    for _ in 0..300 {
        let g = draws.group(false);
        let ledger = compute_balance_from_group(&g);
        let unsettled = ledger.iter().filter(|b| b.balance != 0).count();
        let debtors = ledger
            .iter()
            .filter(|b| b.balance < 0)
            .map(|b| opensplit::exchange::PersonBalance { id: b.id.clone(), balance: -b.balance })
            .collect();
        let creditors = ledger
            .iter()
            .filter(|b| b.balance > 0)
            .map(|b| opensplit::exchange::PersonBalance { id: b.id.clone(), balance: b.balance })
            .collect();
        let greedy = get_simplified_balances(debtors, creditors);
        if unsettled == 0 {
            assert!(greedy.is_empty());
        } else {
            assert!(greedy.len() <= unsettled - 1);
        }
        assert_eq!(flows(&greedy), nonzero_balances(&g));
    }
}
