//! Balances and payments, and what a list of payments does to each participant.
use crate::balance::compute_balance_from_group;
use crate::balance::ledger;
use crate::balance::lemma_ledger_total;
use crate::balance::lemma_outsider_balance;
use crate::balance::lemma_participants;
use crate::balance::lemma_net_balance_bounds;
use crate::balance::participants;
use crate::greedy::all_nonnegative;
use crate::greedy::all_positive;
use crate::greedy::held;
use crate::greedy::lemma_greedy_plan_len;
use crate::greedy::lemma_greedy_plan_settles;
use crate::greedy::lemma_sorted_by_balance;
use crate::greedy::get_simplified_balances;
use crate::greedy::greedy_plan;
use crate::greedy::sorted_by_balance;
use crate::netting::get_reverse_expenses;
use crate::netting::is_pairwise_netting;
use crate::netting::lemma_netting_settles;
use crate::netting::lemma_netting_unique;
use crate::schemas::all_have_receivers;
use crate::schemas::net_balance;
use crate::schemas::ExpenseView;
use crate::schemas::Group;
use vstd::prelude::*;

verus! {

/// A participant and an amount: a signed net balance in a ledger, a positive
/// magnitude in a list of debtors or of creditors.
#[derive(Clone, Debug)]
pub struct PersonBalance {
    pub id: String,
    pub balance: i128,
}

/// Two participants in a fixed direction, the key under which what they owe
/// each other is netted.
#[derive(Clone, Eq, PartialEq, Hash, Debug)]
pub struct PeoplePair {
    pub person1: String,
    pub person2: String,
}

/// A payment instruction: `payer` pays `receiver` the `amount`.
#[derive(Clone, Debug)]
pub struct Exchange {
    pub payer: String,
    pub receiver: String,
    pub amount: i128,
}

/// The mathematical value of a [`PersonBalance`].
pub struct PersonBalanceView {
    pub id: Seq<char>,
    pub balance: int,
}

/// The mathematical value of a [`PeoplePair`].
pub struct PeoplePairView {
    pub person1: Seq<char>,
    pub person2: Seq<char>,
}

/// The mathematical value of an [`Exchange`].
pub struct ExchangeView {
    pub payer: Seq<char>,
    pub receiver: Seq<char>,
    pub amount: int,
}

impl DeepView for PersonBalance {
    type V = PersonBalanceView;

    open spec fn deep_view(&self) -> PersonBalanceView {
        PersonBalanceView { id: self.id@, balance: self.balance as int }
    }
}

impl View for PersonBalance {
    type V = PersonBalanceView;

    open spec fn view(&self) -> PersonBalanceView {
        self.deep_view()
    }
}

impl DeepView for PeoplePair {
    type V = PeoplePairView;

    open spec fn deep_view(&self) -> PeoplePairView {
        PeoplePairView { person1: self.person1@, person2: self.person2@ }
    }
}

impl View for PeoplePair {
    type V = PeoplePairView;

    open spec fn view(&self) -> PeoplePairView {
        self.deep_view()
    }
}

impl DeepView for Exchange {
    type V = ExchangeView;

    open spec fn deep_view(&self) -> ExchangeView {
        ExchangeView { payer: self.payer@, receiver: self.receiver@, amount: self.amount as int }
    }
}

impl View for Exchange {
    type V = ExchangeView;

    open spec fn view(&self) -> ExchangeView {
        self.deep_view()
    }
}

impl ExchangeView {
    /// What this payment brings `who`: the amount if received, its negative
    /// if paid, both if `who` pays themselves.
    pub open spec fn gain_of(self, who: Seq<char>) -> int {
        (if self.receiver == who {
            self.amount
        } else {
            0
        }) - (if self.payer == who {
            self.amount
        } else {
            0
        })
    }
}

/// What `who` receives less what `who` pays over all of `exchanges`.
pub open spec fn flow(exchanges: Seq<ExchangeView>, who: Seq<char>) -> int
    decreases exchanges.len(),
{
    if exchanges.len() == 0 {
        0
    } else {
        flow(exchanges.drop_last(), who) + exchanges.last().gain_of(who)
    }
}

/// The sum of the balances in `balances`.
pub open spec fn total_balance(balances: Seq<PersonBalanceView>) -> int
    decreases balances.len(),
{
    if balances.len() == 0 {
        0
    } else {
        total_balance(balances.drop_last()) + balances.last().balance
    }
}

/// The identifiers in `balances`, in order.
pub open spec fn balance_ids(balances: Seq<PersonBalanceView>) -> Seq<Seq<char>> {
    balances.map_values(|b: PersonBalanceView| b.id)
}

/// Those of `balances` who owe, each with the amount owed, in the order in
/// which they stand.
pub open spec fn debtors_of(balances: Seq<PersonBalanceView>) -> Seq<PersonBalanceView>
    decreases balances.len(),
{
    if balances.len() == 0 {
        Seq::empty()
    } else if balances.last().balance < 0 {
        debtors_of(balances.drop_last()).push(
            PersonBalanceView { id: balances.last().id, balance: -balances.last().balance },
        )
    } else {
        debtors_of(balances.drop_last())
    }
}

/// Those of `balances` who are owed, each with the amount due to them, in the
/// order in which they stand.
pub open spec fn creditors_of(balances: Seq<PersonBalanceView>) -> Seq<PersonBalanceView>
    decreases balances.len(),
{
    if balances.len() == 0 {
        Seq::empty()
    } else if balances.last().balance > 0 {
        creditors_of(balances.drop_last()).push(balances.last())
    } else {
        creditors_of(balances.drop_last())
    }
}

/// The greedy settlement of `expenses`: of their ledger, the debtors settled
/// against the creditors. Those whose balance is zero take no part.
pub open spec fn greedy_settlement(expenses: Seq<ExpenseView>) -> Seq<ExchangeView> {
    greedy_plan(
        sorted_by_balance(debtors_of(ledger(expenses))),
        sorted_by_balance(creditors_of(ledger(expenses))),
    )
}

/// Of the two candidates the one with fewer payments, and the pairwise
/// netting where they have as many.
pub open spec fn shorter_of(greedy: Seq<ExchangeView>, naive: Seq<ExchangeView>) -> Seq<
    ExchangeView,
> {
    if greedy.len() < naive.len() {
        greedy
    } else {
        naive
    }
}

/// `exchanges` settles `expenses`: it is the greedy settlement where that
/// has fewer payments than the pairwise netting of the expenses, and the
/// netting otherwise.
pub open spec fn is_settlement(expenses: Seq<ExpenseView>, exchanges: Seq<ExchangeView>) -> bool {
    exists|naive: Seq<ExchangeView>| #[trigger]
        is_pairwise_netting(expenses, naive) && exchanges == shorter_of(
            greedy_settlement(expenses),
            naive,
        )
}

/// Debtors and creditors are listed with positive amounts.
pub proof fn lemma_sides_positive(balances: Seq<PersonBalanceView>)
    ensures
        all_positive(debtors_of(balances)),
        all_positive(creditors_of(balances)),
    decreases balances.len(),
{
    if balances.len() > 0 {
        lemma_sides_positive(balances.drop_last());
    }
}

/// How many of `balances` are not zero.
pub open spec fn unsettled(balances: Seq<PersonBalanceView>) -> nat
    decreases balances.len(),
{
    if balances.len() == 0 {
        0
    } else {
        unsettled(balances.drop_last()) + if balances.last().balance != 0 {
            1nat
        } else {
            0nat
        }
    }
}

/// Debtors and creditors are those whose balance is not zero, and hold
/// between them what the balances hold.
pub proof fn lemma_sides(balances: Seq<PersonBalanceView>, who: Seq<char>)
    ensures
        debtors_of(balances).len() + creditors_of(balances).len() == unsettled(balances),
        total_balance(creditors_of(balances)) - total_balance(debtors_of(balances))
            == total_balance(balances),
        held(creditors_of(balances), who) - held(debtors_of(balances), who) == held(
            balances,
            who,
        ),
    decreases balances.len(),
{
    if balances.len() > 0 {
        let front = balances.drop_last();
        lemma_sides(front, who);
        if balances.last().balance < 0 {
            assert(debtors_of(balances).drop_last() =~= debtors_of(front));
        } else if balances.last().balance > 0 {
            assert(creditors_of(balances).drop_last() =~= creditors_of(front));
        }
    }
}

/// In a list that has one entry for each of `names`, a participant holds
/// what their entry says, and nothing if they are not among the names.
proof fn lemma_held_of_entries(
    names: Seq<Seq<char>>,
    entry: spec_fn(Seq<char>) -> PersonBalanceView,
    who: Seq<char>,
)
    requires
        names.no_duplicates(),
        forall|q: Seq<char>| (#[trigger] entry(q)).id == q,
    ensures
        held(names.map_values(entry), who) == if names.contains(who) {
            entry(who).balance
        } else {
            0
        },
    decreases names.len(),
{
    if names.len() > 0 {
        let front = names.drop_last();
        assert(names.map_values(entry).drop_last() =~= front.map_values(entry));
        lemma_held_of_entries(front, entry, who);
        if front.contains(who) {
            let k = choose|k: int| 0 <= k < front.len() && front[k] == who;
            assert(names[k] == who);
            assert(names[names.len() - 1] != who);
        } else if names.last() == who {
            assert(names[names.len() - 1] == who);
        } else if names.contains(who) {
            let k = choose|k: int| 0 <= k < names.len() && names[k] == who;
            assert(front[k] == who);
        }
    }
}

/// What anybody holds in the ledger is their net balance.
pub proof fn lemma_ledger_held(expenses: Seq<ExpenseView>, who: Seq<char>)
    ensures
        held(ledger(expenses), who) == net_balance(expenses, who),
{
    let entry = |q: Seq<char>| PersonBalanceView { id: q, balance: net_balance(expenses, q) };
    lemma_participants(expenses);
    lemma_held_of_entries(participants(expenses), entry, who);
    if !participants(expenses).contains(who) {
        lemma_outsider_balance(expenses, who);
    }
}

/// The greedy settlement needs at most one payment fewer than there are
/// participants whose balance is not zero, and none where there is no such
/// participant.
pub proof fn lemma_greedy_settlement_len(expenses: Seq<ExpenseView>)
    ensures
        unsettled(ledger(expenses)) > 0 ==> greedy_settlement(expenses).len() <= unsettled(
            ledger(expenses),
        ) - 1,
        unsettled(ledger(expenses)) == 0 ==> greedy_settlement(expenses).len() == 0,
{
    let debtors = debtors_of(ledger(expenses));
    let creditors = creditors_of(ledger(expenses));
    lemma_sides(ledger(expenses), Seq::empty());
    lemma_sorted_by_balance(debtors);
    lemma_sorted_by_balance(creditors);
    lemma_greedy_plan_len(sorted_by_balance(debtors), sorted_by_balance(creditors));
}

/// The greedy settlement settles everybody: it brings every participant
/// their net balance.
pub proof fn lemma_greedy_settlement_settles(expenses: Seq<ExpenseView>, who: Seq<char>)
    requires
        all_have_receivers(expenses),
    ensures
        flow(greedy_settlement(expenses), who) == net_balance(expenses, who),
{
    let debtors = debtors_of(ledger(expenses));
    let creditors = creditors_of(ledger(expenses));
    lemma_ledger_total(expenses);
    lemma_ledger_held(expenses, who);
    lemma_sides(ledger(expenses), who);
    lemma_sides_positive(ledger(expenses));
    lemma_sorted_by_balance(debtors);
    lemma_sorted_by_balance(creditors);
    assert(all_nonnegative(sorted_by_balance(debtors))) by {
        assert forall|k: int| 0 <= k < sorted_by_balance(debtors).len() implies (
        #[trigger] sorted_by_balance(debtors)[k]).balance >= 0 by {}
    }
    assert(all_nonnegative(sorted_by_balance(creditors))) by {
        assert forall|k: int| 0 <= k < sorted_by_balance(creditors).len() implies (
        #[trigger] sorted_by_balance(creditors)[k]).balance >= 0 by {}
    }
    lemma_greedy_plan_settles(sorted_by_balance(debtors), sorted_by_balance(creditors), who);
}

/// Payments written as expenses: each as an expense that its payer paid for
/// its receiver alone.
pub open spec fn as_expenses(exchanges: Seq<ExchangeView>) -> Seq<ExpenseView> {
    exchanges.map_values(
        |t: ExchangeView|
            ExpenseView {
                name: Seq::empty(),
                amount: t.amount,
                payer: t.payer,
                receivers: seq![t.receiver],
            },
    )
}

/// A payment, once made, stands in the ledger as a credit of its payer and a
/// debit of its receiver: payments written as expenses give every
/// participant the negative of what the payments bring them.
pub proof fn lemma_payments_as_expenses(exchanges: Seq<ExchangeView>, who: Seq<char>)
    ensures
        net_balance(as_expenses(exchanges), who) == -flow(exchanges, who),
    decreases exchanges.len(),
{
    if exchanges.len() > 0 {
        let last = exchanges.last();
        let e = as_expenses(exchanges).last();
        assert(as_expenses(exchanges).drop_last() =~= as_expenses(exchanges.drop_last()));
        lemma_payments_as_expenses(exchanges.drop_last(), who);
        assert(e.share() == last.amount);
        assert(e.share() * 1 == e.share()) by (nonlinear_arith);
        assert(e.charge(0) == last.amount);
        assert(e.charged_to(0, who) == 0);
        assert(e.charged_to(1, who) == if last.receiver == who {
            last.amount
        } else {
            0
        });
    }
}

/// The net balance over two lists of expenses is the sum of the net balances
/// over each.
pub proof fn lemma_net_balance_concat(
    first: Seq<ExpenseView>,
    second: Seq<ExpenseView>,
    who: Seq<char>,
)
    ensures
        net_balance(first + second, who) == net_balance(first, who) + net_balance(second, who),
    decreases second.len(),
{
    if second.len() == 0 {
        assert(first + second =~= first);
    } else {
        assert((first + second).drop_last() =~= first + second.drop_last());
        lemma_net_balance_concat(first, second.drop_last(), who);
    }
}

/// Expenses have one settlement and no other.
pub proof fn lemma_settlement_unique(
    expenses: Seq<ExpenseView>,
    exchanges: Seq<ExchangeView>,
    others: Seq<ExchangeView>,
)
    requires
        is_settlement(expenses, exchanges),
        is_settlement(expenses, others),
    ensures
        exchanges == others,
{
    let naive = choose|naive: Seq<ExchangeView>| #[trigger]
        is_pairwise_netting(expenses, naive) && exchanges == shorter_of(
            greedy_settlement(expenses),
            naive,
        );
    let other = choose|other: Seq<ExchangeView>| #[trigger]
        is_pairwise_netting(expenses, other) && others == shorter_of(
            greedy_settlement(expenses),
            other,
        );
    lemma_netting_unique(expenses, naive, other);
}

/// A settlement settles everybody. Its payments bring every participant
/// their net balance: a creditor receives what they are owed, a debtor pays
/// what they owe. Entered in the ledger as expenses, the payments undo every
/// balance.
pub proof fn lemma_settlement_settles(
    expenses: Seq<ExpenseView>,
    exchanges: Seq<ExchangeView>,
    who: Seq<char>,
)
    requires
        all_have_receivers(expenses),
        is_settlement(expenses, exchanges),
    ensures
        flow(exchanges, who) == net_balance(expenses, who),
        net_balance(as_expenses(exchanges), who) == -net_balance(expenses, who),
        net_balance(expenses + as_expenses(exchanges), who) == 0,
{
    let naive = choose|naive: Seq<ExchangeView>| #[trigger]
        is_pairwise_netting(expenses, naive) && exchanges == shorter_of(
            greedy_settlement(expenses),
            naive,
        );
    if greedy_settlement(expenses).len() < naive.len() {
        lemma_greedy_settlement_settles(expenses, who);
    } else {
        lemma_netting_settles(expenses, naive, who);
    }
    lemma_payments_as_expenses(exchanges, who);
    lemma_net_balance_concat(expenses, as_expenses(exchanges), who);
}

/// Settles `group`: computes its ledger, settles the debtors against the
/// creditors greedily, nets the expenses pair by pair, and returns whichever
/// of the two has fewer payments, the pairwise netting where they have as
/// many. Either way the payments bring every participant their net balance.
pub fn get_exchanges_from_group(group: &Group) -> (exchanges: Vec<Exchange>)
    requires
        all_have_receivers(group@.expenses),
    ensures
        is_settlement(group@.expenses, exchanges.deep_view()),
        forall|who: Seq<char>|
            flow(exchanges.deep_view(), who) == net_balance(group@.expenses, who),
{
    let ghost expenses = group@.expenses;
    let people_balances = compute_balance_from_group(group);
    let ghost sheet = people_balances.deep_view();
    let mut payers: Vec<PersonBalance> = Vec::new();
    let mut receivers: Vec<PersonBalance> = Vec::new();
    let mut k: usize = 0;
    proof {
        assert(sheet.take(0) =~= Seq::<PersonBalanceView>::empty());
        assert forall|m: int| 0 <= m < sheet.len() implies i128::MIN < (#[trigger] sheet[m]).balance by {
            assert forall|n: int| 0 <= n < expenses.len() implies (#[trigger] expenses[n]).in_range() by {
                assert(expenses[n] == group.expenses@[n]@);
            }
            lemma_net_balance_bounds(expenses, participants(expenses)[m]);
            assert(sheet[m].balance == net_balance(expenses, participants(expenses)[m]));
            assert(expenses.len() == group.expenses.len());
        }
    }
    while k < people_balances.len()
        invariant
            k <= people_balances.len(),
            sheet == people_balances.deep_view(),
            forall|m: int| 0 <= m < sheet.len() ==> i128::MIN < (#[trigger] sheet[m]).balance,
            payers.deep_view() == debtors_of(sheet.take(k as int)),
            receivers.deep_view() == creditors_of(sheet.take(k as int)),
        decreases people_balances.len() - k,
    {
        let balance = people_balances[k].balance;
        proof {
            assert(sheet.take(k + 1).drop_last() =~= sheet.take(k as int));
            assert(sheet.take(k + 1).last() == people_balances[k as int]@);
            assert(sheet[k as int].balance == balance);
        }
        let ghost owing = payers.deep_view();
        let ghost owed = receivers.deep_view();
        if balance < 0 {
            payers.push(PersonBalance { id: people_balances[k].id.clone(), balance: -balance });
            assert(payers.deep_view() =~= owing.push(
                PersonBalanceView { id: sheet[k as int].id, balance: -balance },
            ));
        } else if balance > 0 {
            receivers.push(PersonBalance { id: people_balances[k].id.clone(), balance });
            assert(receivers.deep_view() =~= owed.push(sheet[k as int]));
        }
        k = k + 1;
    }
    proof {
        assert(sheet.take(k as int) =~= sheet);
        lemma_sides_positive(sheet);
        lemma_sides(sheet, Seq::empty());
    }
    let not_simplified_exchanges = get_reverse_expenses(&group.expenses);
    let simplified_exchanges = get_simplified_balances(payers, receivers);
    let exchanges = if simplified_exchanges.len() < not_simplified_exchanges.len() {
        assert(is_pairwise_netting(expenses, not_simplified_exchanges.deep_view()));
        simplified_exchanges
    } else {
        not_simplified_exchanges
    };
    proof {
        assert forall|who: Seq<char>|
            flow(exchanges.deep_view(), who) == net_balance(expenses, who) by {
            lemma_settlement_settles(expenses, exchanges.deep_view(), who);
        }
    }
    exchanges
}

} // verus!
