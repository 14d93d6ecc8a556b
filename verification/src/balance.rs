//! The ledger: from a list of expenses to the net balance of every participant,
//! and one participant's balance in each of several groups.
use crate::counting::covers;
use crate::counting::lemma_sum_add;
use crate::counting::lemma_sum_same;
use crate::counting::lemma_sum_single;
use crate::counting::lemma_sum_charges;
use crate::counting::lemma_sum_zero;
use crate::counting::sum_over;
use crate::exchange::balance_ids;
use crate::exchange::total_balance;
use crate::exchange::PersonBalance;
use crate::exchange::PersonBalanceView;
use crate::schemas::all_have_receivers;
use crate::schemas::lemma_charged;
use crate::schemas::lemma_charged_to;
use crate::schemas::lemma_charged_to_nobody;
use crate::schemas::amount_limit;
use crate::schemas::all_in_range;
use crate::schemas::is_participant;
use crate::schemas::net_balance;
use crate::schemas::ExpenseView;
use crate::schemas::Group;
use crate::schemas::GroupView;
use crate::schemas::UserNick;
use vstd::prelude::*;

verus! {

/// One participant's net balance in one group.
#[derive(Debug)]
pub struct UserGroupBalance {
    pub group_id: String,
    pub group_name: String,
    pub amount: i128,
}

/// The mathematical value of a [`UserGroupBalance`].
pub struct UserGroupBalanceView {
    pub group_id: Seq<char>,
    pub group_name: Seq<char>,
    pub amount: int,
}

impl DeepView for UserGroupBalance {
    type V = UserGroupBalanceView;

    open spec fn deep_view(&self) -> UserGroupBalanceView {
        UserGroupBalanceView {
            group_id: self.group_id@,
            group_name: self.group_name@,
            amount: self.amount as int,
        }
    }
}

impl View for UserGroupBalance {
    type V = UserGroupBalanceView;

    open spec fn view(&self) -> UserGroupBalanceView {
        self.deep_view()
    }
}

/// Every name that `expenses` record, in the order of recording: for each
/// expense its payer, then its receivers.
pub open spec fn mentions(expenses: Seq<ExpenseView>) -> Seq<Seq<char>>
    decreases expenses.len(),
{
    if expenses.len() == 0 {
        Seq::empty()
    } else {
        mentions(expenses.drop_last()).push(expenses.last().payer) + expenses.last().receivers
    }
}

/// `names` without repetitions: each name where it first stands.
pub open spec fn first_occurrences(names: Seq<Seq<char>>) -> Seq<Seq<char>>
    decreases names.len(),
{
    if names.len() == 0 {
        Seq::empty()
    } else {
        let earlier = first_occurrences(names.drop_last());
        if earlier.contains(names.last()) {
            earlier
        } else {
            earlier.push(names.last())
        }
    }
}

/// The participants of `expenses`, each once, in the order of first mention.
pub open spec fn participants(expenses: Seq<ExpenseView>) -> Seq<Seq<char>> {
    first_occurrences(mentions(expenses))
}

/// The ledger of `expenses`: every participant, in the order of first mention,
/// with their net balance.
pub open spec fn ledger(expenses: Seq<ExpenseView>) -> Seq<PersonBalanceView> {
    participants(expenses).map_values(
        |who: Seq<char>| PersonBalanceView { id: who, balance: net_balance(expenses, who) },
    )
}

/// Every expense of every group has at least one receiver slot.
pub open spec fn groups_have_receivers(groups: Seq<GroupView>) -> bool {
    forall|g: int| 0 <= g < groups.len() ==> all_have_receivers((#[trigger] groups[g]).expenses)
}

/// The standing of `who` in `group`: the group's identifier and name, and the
/// net balance of `who` over its expenses alone.
pub open spec fn standing_in(group: GroupView, who: Seq<char>) -> UserGroupBalanceView {
    UserGroupBalanceView {
        group_id: group.id,
        group_name: group.name,
        amount: net_balance(group.expenses, who),
    }
}

/// A name is among the first occurrences exactly if it is among the names, and
/// there it stands once.
pub proof fn lemma_first_occurrences(names: Seq<Seq<char>>)
    ensures
        first_occurrences(names).no_duplicates(),
        forall|who: Seq<char>| first_occurrences(names).contains(who) <==> names.contains(who),
    decreases names.len(),
{
    if names.len() > 0 {
        let front = names.drop_last();
        let earlier = first_occurrences(front);
        lemma_first_occurrences(front);
        assert forall|who: Seq<char>| first_occurrences(names).contains(who) implies names.contains(
            who,
        ) by {
            let k = choose|k: int|
                0 <= k < first_occurrences(names).len() && first_occurrences(names)[k] == who;
            if k < earlier.len() {
                assert(earlier[k] == who);
                assert(front.contains(who));
                let m = choose|m: int| 0 <= m < front.len() && front[m] == who;
                assert(names[m] == who);
            } else {
                assert(names[names.len() - 1] == who);
            }
        }
        assert forall|who: Seq<char>| names.contains(who) implies first_occurrences(
            names,
        ).contains(who) by {
            let k = choose|k: int| 0 <= k < names.len() && names[k] == who;
            if k < front.len() {
                assert(front[k] == who);
                assert(front.contains(who));
                assert(earlier.contains(who));
                let m = choose|m: int| 0 <= m < earlier.len() && earlier[m] == who;
                assert(first_occurrences(names)[m] == who);
            } else if earlier.contains(who) {
                let m = choose|m: int| 0 <= m < earlier.len() && earlier[m] == who;
                assert(first_occurrences(names)[m] == who);
            } else {
                assert(first_occurrences(names)[earlier.len() as int] == who);
            }
        }
    }
}

/// The participants are exactly those who paid or received an expense, each
/// listed once.
pub proof fn lemma_participants(expenses: Seq<ExpenseView>)
    ensures
        participants(expenses).no_duplicates(),
        forall|who: Seq<char>|
            participants(expenses).contains(who) <==> is_participant(expenses, who),
{
    lemma_first_occurrences(mentions(expenses));
    assert forall|who: Seq<char>| mentions(expenses).contains(who) <==> is_participant(
        expenses,
        who,
    ) by {
        lemma_mentions(expenses, who);
    }
}

/// The names that expenses record are those of their participants.
proof fn lemma_mentions(expenses: Seq<ExpenseView>, who: Seq<char>)
    ensures
        mentions(expenses).contains(who) <==> is_participant(expenses, who),
    decreases expenses.len(),
{
    if expenses.len() > 0 {
        let front = expenses.drop_last();
        let last = expenses.last();
        let head = mentions(front).push(last.payer);
        lemma_mentions(front, who);
        if mentions(expenses).contains(who) {
            let k = choose|k: int| 0 <= k < mentions(expenses).len() && mentions(expenses)[k] == who;
            if k < mentions(front).len() {
                assert(mentions(front)[k] == who);
                let m = choose|m: int| 0 <= m < front.len() && (#[trigger] front[m]).involves(who);
                assert(expenses[m].involves(who));
            } else if k == mentions(front).len() {
                assert(expenses[expenses.len() - 1].involves(who));
            } else {
                assert(last.receivers[k - head.len()] == who);
                assert(expenses[expenses.len() - 1].involves(who));
            }
        }
        if is_participant(expenses, who) {
            let m = choose|m: int| 0 <= m < expenses.len() && (#[trigger] expenses[m]).involves(who);
            if m < front.len() {
                assert(front[m].involves(who));
                let k = choose|k: int| 0 <= k < mentions(front).len() && mentions(front)[k] == who;
                assert(mentions(expenses)[k] == who);
            } else if last.payer == who {
                assert(mentions(expenses)[mentions(front).len() as int] == who);
            } else {
                let k = choose|k: int| 0 <= k < last.receivers.len() && last.receivers[k] == who;
                assert(mentions(expenses)[head.len() + k] == who);
            }
        }
    }
}

/// Someone whom no expense mentions has a net balance of zero.
pub proof fn lemma_outsider_balance(expenses: Seq<ExpenseView>, who: Seq<char>)
    requires
        !is_participant(expenses, who),
    ensures
        net_balance(expenses, who) == 0,
    decreases expenses.len(),
{
    if expenses.len() > 0 {
        let front = expenses.drop_last();
        let last = expenses.last();
        assert(!expenses[expenses.len() - 1].involves(who));
        assert forall|m: int| 0 <= m < front.len() implies !(#[trigger] front[m]).involves(
            who,
        ) by {
            assert(!expenses[m].involves(who));
        }
        lemma_outsider_balance(front, who);
        lemma_charged_to_nobody(last, last.receivers.len() as int, who);
    }
}

/// Summed over a list that names every participant once, the net balances
/// come to nothing.
proof fn lemma_balances_sum(names: Seq<Seq<char>>, expenses: Seq<ExpenseView>)
    requires
        names.no_duplicates(),
        covers(names, mentions(expenses)),
        all_have_receivers(expenses),
    ensures
        sum_over(names, |q: Seq<char>| net_balance(expenses, q)) == 0,
    decreases expenses.len(),
{
    let total = |q: Seq<char>| net_balance(expenses, q);
    if expenses.len() == 0 {
        lemma_sum_same(names, total, |q: Seq<char>| 0int);
        lemma_sum_zero(names);
    } else {
        let front = expenses.drop_last();
        let last = expenses.last();
        let slots = last.receivers.len() as int;
        let seen = mentions(front);
        let earlier = |q: Seq<char>| net_balance(front, q);
        let effect = |q: Seq<char>| last.effect_on(q);
        let paid = |q: Seq<char>|
            if q == last.payer {
                last.amount
            } else {
                0int
            };
        let charged = |q: Seq<char>| last.charged_to(slots, q);
        assert(expenses[expenses.len() - 1].receivers.len() > 0);
        assert forall|m: int| 0 <= m < front.len() implies (#[trigger] front[m]).receivers.len()
            > 0 by {
            assert(expenses[m].receivers.len() > 0);
        }
        assert forall|k: int| 0 <= k < seen.len() implies names.contains(#[trigger] seen[k]) by {
            assert(mentions(expenses)[k] == seen[k]);
        }
        assert(mentions(expenses)[seen.len() as int] == last.payer);
        assert forall|k: int| 0 <= k < last.receivers.len() implies names.contains(
            #[trigger] last.receivers[k],
        ) by {
            assert(mentions(expenses)[seen.len() + 1 + k] == last.receivers[k]);
        }
        assert forall|q: Seq<char>| #[trigger] paid(q) == effect(q) + charged(q) by {}
        lemma_sum_add(names, total, earlier, effect);
        lemma_balances_sum(names, front);
        lemma_sum_add(names, paid, effect, charged);
        lemma_sum_single(names, paid, last.payer, last.amount);
        lemma_sum_charges(names, charged, last, slots);
        lemma_charged(last, slots);
    }
}

/// The total of a list of balances made from names is the sum of their
/// balances over the names.
proof fn lemma_total_of_entries(
    names: Seq<Seq<char>>,
    entry: spec_fn(Seq<char>) -> PersonBalanceView,
)
    ensures
        total_balance(names.map_values(entry)) == sum_over(
            names,
            |q: Seq<char>| entry(q).balance,
        ),
    decreases names.len(),
{
    if names.len() > 0 {
        assert(names.map_values(entry).drop_last() =~= names.drop_last().map_values(entry));
        lemma_total_of_entries(names.drop_last(), entry);
    }
}

/// The balances of a ledger add up to nothing: what is owed to some is owed
/// by the others.
pub proof fn lemma_ledger_total(expenses: Seq<ExpenseView>)
    requires
        all_have_receivers(expenses),
    ensures
        total_balance(ledger(expenses)) == 0,
{
    let names = participants(expenses);
    let entry = |who: Seq<char>| PersonBalanceView { id: who, balance: net_balance(expenses, who) };
    lemma_first_occurrences(mentions(expenses));
    assert forall|k: int| 0 <= k < mentions(expenses).len() implies names.contains(
        #[trigger] mentions(expenses)[k],
    ) by {
        assert(mentions(expenses).contains(mentions(expenses)[k]));
    }
    lemma_total_of_entries(names, entry);
    lemma_sum_same(
        names,
        |q: Seq<char>| entry(q).balance,
        |q: Seq<char>| net_balance(expenses, q),
    );
    lemma_balances_sum(names, expenses);
}

/// A net balance is bounded by the number of expenses times the largest amount.
pub proof fn lemma_net_balance_bounds(expenses: Seq<ExpenseView>, who: Seq<char>)
    requires
        all_have_receivers(expenses),
        all_in_range(expenses),
    ensures
        -expenses.len() * amount_limit() <= net_balance(expenses, who) <= expenses.len()
            * amount_limit(),
    decreases expenses.len(),
{
    if expenses.len() > 0 {
        let front = expenses.drop_last();
        let last = expenses.last();
        assert(expenses[expenses.len() - 1].in_range());
        assert forall|m: int| 0 <= m < front.len() implies (#[trigger] front[m]).receivers.len()
            > 0 && front[m].in_range() by {
            assert(expenses[m].in_range());
        }
        lemma_net_balance_bounds(front, who);
        lemma_effect_bounds(last, last.receivers.len() as int, who);
    }
}

impl ExpenseView {
    /// The effect of this expense on `who` when only the first `slots`
    /// receiver slots have been charged.
    spec fn effect_upto(self, slots: int, who: Seq<char>) -> int {
        (if self.payer == who {
            self.amount
        } else {
            0
        }) - self.charged_to(slots, who)
    }
}

/// No expense moves a balance by more than its own amount, however many of its
/// slots have been charged.
proof fn lemma_effect_bounds(e: ExpenseView, slots: int, who: Seq<char>)
    requires
        e.receivers.len() > 0,
        0 <= slots <= e.receivers.len(),
    ensures
        e.amount >= 0 ==> -e.amount <= e.effect_upto(slots, who) <= e.amount,
        e.amount < 0 ==> e.amount <= e.effect_upto(slots, who) <= -e.amount,
{
    lemma_charged_to(e, slots, who);
}

impl PersonBalanceView {
    /// This entry after `delta` has been added to the balance of `who`.
    spec fn credited(self, who: Seq<char>, delta: int) -> PersonBalanceView {
        if self.id == who {
            PersonBalanceView { id: self.id, balance: self.balance + delta }
        } else {
            self
        }
    }
}

/// `balances` after `delta` has been added to the balance of `who`, who is
/// entered at the end if not yet listed.
spec fn credited(balances: Seq<PersonBalanceView>, who: Seq<char>, delta: int) -> Seq<
    PersonBalanceView,
> {
    if balance_ids(balances).contains(who) {
        balances.map_values(|b: PersonBalanceView| b.credited(who, delta))
    } else {
        balances.push(PersonBalanceView { id: who, balance: delta })
    }
}

/// Adds `delta` to the balance of `who`, whom it enters at the end of the
/// list if not yet listed.
fn credit(balances: &mut Vec<PersonBalance>, who: &String, delta: i128)
    requires
        balance_ids(old(balances).deep_view()).no_duplicates(),
        forall|k: int|
            0 <= k < old(balances).len() && (#[trigger] old(balances).deep_view()[k]).id == who@
                ==> i128::MIN <= old(balances).deep_view()[k].balance + delta <= i128::MAX,
    ensures
        final(balances).deep_view() == credited(old(balances).deep_view(), who@, delta as int),
{
    let ghost before = balances.deep_view();
    let mut k: usize = 0;
    while k < balances.len()
        invariant
            k <= balances.len(),
            balances.deep_view() == before,
            before == old(balances).deep_view(),
            balance_ids(before).no_duplicates(),
            forall|m: int|
                0 <= m < before.len() && (#[trigger] before[m]).id == who@ ==> i128::MIN
                    <= before[m].balance + delta <= i128::MAX,
            forall|m: int| 0 <= m < k ==> (#[trigger] before[m]).id != who@,
        decreases balances.len() - k,
    {
        if balances[k].id == *who {
            proof {
                assert(before[k as int].id == who@);
                assert(balance_ids(before)[k as int] == who@);
                assert forall|m: int| 0 <= m < before.len() && m != k implies (
                #[trigger] before[m]).id != who@ by {
                    assert(balance_ids(before)[m] == before[m].id);
                }
            }
            balances[k].balance = balances[k].balance + delta;
            proof {
                let after = balances.deep_view();
                let entry = before[k as int].credited(who@, delta as int);
                assert(after =~= before.update(k as int, entry));
                assert(after =~= credited(before, who@, delta as int));
            }
            return ;
        }
        k = k + 1;
    }
    balances.push(PersonBalance { id: who.clone(), balance: delta });
    proof {
        let after = balances.deep_view();
        let entry = PersonBalanceView { id: who@, balance: delta as int };
        assert(after =~= before.push(entry));
        if balance_ids(before).contains(who@) {
            let m = choose|m: int|
                0 <= m < balance_ids(before).len() && balance_ids(before)[m] == who@;
            assert(before[m].id == who@);
        }
    }
}

/// The names recorded once the first `i` expenses, the payer of expense `i`
/// and its first `slots` receivers have been entered.
spec fn recorded(expenses: Seq<ExpenseView>, i: int, slots: int) -> Seq<Seq<char>> {
    mentions(expenses.take(i)).push(expenses[i].payer) + expenses[i].receivers.take(slots)
}

/// The balance of `who` once the first `i` expenses, the payment of expense
/// `i` and the charges to its first `slots` receivers have been entered.
spec fn progress(expenses: Seq<ExpenseView>, i: int, slots: int, who: Seq<char>) -> int {
    net_balance(expenses.take(i), who) + expenses[i].effect_upto(slots, who)
}

/// `balances` is the ledger of the first `i` expenses.
spec fn tallies_before(
    balances: Seq<PersonBalanceView>,
    expenses: Seq<ExpenseView>,
    i: int,
) -> bool {
    &&& balance_ids(balances) == participants(expenses.take(i))
    &&& forall|k: int|
        0 <= k < balances.len() ==> (#[trigger] balances[k]).balance == net_balance(
            expenses.take(i),
            balances[k].id,
        )
}

/// `balances` lists whoever was recorded up to slot `slots` of expense `i`,
/// each with the balance reached there.
spec fn tallies_within(
    balances: Seq<PersonBalanceView>,
    expenses: Seq<ExpenseView>,
    i: int,
    slots: int,
) -> bool {
    &&& balance_ids(balances) == first_occurrences(recorded(expenses, i, slots))
    &&& forall|k: int|
        0 <= k < balances.len() ==> (#[trigger] balances[k]).balance == progress(
            expenses,
            i,
            slots,
            balances[k].id,
        )
}

/// While expense `i` is being recorded every balance stays in range.
proof fn lemma_progress_bounds(expenses: Seq<ExpenseView>, i: int, slots: int, who: Seq<char>)
    requires
        all_have_receivers(expenses),
        all_in_range(expenses),
        0 <= i < expenses.len() <= usize::MAX,
        0 <= slots <= expenses[i].receivers.len(),
    ensures
        i128::MIN <= progress(expenses, i, slots, who) <= i128::MAX,
{
    let done = expenses.take(i);
    assert forall|m: int| 0 <= m < done.len() implies (#[trigger] done[m]).receivers.len() > 0
        && done[m].in_range() by {
        assert(expenses[m].in_range());
    }
    lemma_net_balance_bounds(done, who);
    lemma_effect_bounds(expenses[i], slots, who);
    assert(expenses[i].in_range());
}

/// Whoever has not been recorded yet has no balance yet.
proof fn lemma_unrecorded(expenses: Seq<ExpenseView>, i: int, slots: int, who: Seq<char>)
    requires
        0 <= i < expenses.len(),
        0 <= slots <= expenses[i].receivers.len(),
        !recorded(expenses, i, slots).contains(who),
    ensures
        progress(expenses, i, slots, who) == 0,
{
    let e = expenses[i];
    let done = expenses.take(i);
    let seen = mentions(done);
    let names = recorded(expenses, i, slots);
    let charged = e.receivers.take(slots);
    if seen.contains(who) {
        let m = choose|m: int| 0 <= m < seen.len() && seen[m] == who;
        assert(names[m] == who);
    }
    if e.payer == who {
        assert(names[seen.len() as int] == who);
    }
    assert forall|j: int| 0 <= j < slots implies e.receivers[j] != who by {
        assert(names[seen.len() + 1 + j] == charged[j]);
    }
    lemma_mentions(done, who);
    lemma_outsider_balance(done, who);
    lemma_charged_to_nobody(e, slots, who);
}

/// Crediting the payer of expense `i` takes the ledger of the expenses before
/// it to the state in which none of its slots is charged.
proof fn lemma_credit_payer(balances: Seq<PersonBalanceView>, expenses: Seq<ExpenseView>, i: int)
    requires
        0 <= i < expenses.len(),
        tallies_before(balances, expenses, i),
    ensures
        tallies_within(
            credited(balances, expenses[i].payer, expenses[i].amount),
            expenses,
            i,
            0,
        ),
{
    let e = expenses[i];
    let done = expenses.take(i);
    let seen = mentions(done);
    let after = credited(balances, e.payer, e.amount);
    let names = recorded(expenses, i, 0);
    assert(e.receivers.take(0) =~= Seq::<Seq<char>>::empty());
    assert(names =~= seen.push(e.payer));
    assert(names.drop_last() =~= seen);
    assert(balance_ids(after) =~= first_occurrences(names));
    assert forall|k: int| 0 <= k < after.len() implies (#[trigger] after[k]).balance == progress(
        expenses,
        i,
        0,
        after[k].id,
    ) by {
        if k < balances.len() {
            assert(balance_ids(balances)[k] == balances[k].id);
            assert(balances[k].balance == net_balance(done, balances[k].id));
        } else {
            lemma_participants(done);
            lemma_outsider_balance(done, e.payer);
        }
    }
}

/// Charging slot `slots` of expense `i` takes the list from the state before
/// that slot to the state after it.
proof fn lemma_credit_receiver(
    balances: Seq<PersonBalanceView>,
    expenses: Seq<ExpenseView>,
    i: int,
    slots: int,
)
    requires
        0 <= i < expenses.len(),
        0 <= slots < expenses[i].receivers.len(),
        tallies_within(balances, expenses, i, slots),
    ensures
        tallies_within(
            credited(balances, expenses[i].receivers[slots], -expenses[i].charge(slots)),
            expenses,
            i,
            slots + 1,
        ),
{
    let e = expenses[i];
    let who = e.receivers[slots];
    let after = credited(balances, who, -e.charge(slots));
    let names = recorded(expenses, i, slots);
    let next = recorded(expenses, i, slots + 1);
    assert(next =~= names.push(who));
    assert(next.drop_last() =~= names);
    assert(balance_ids(after) =~= first_occurrences(next));
    assert forall|k: int| 0 <= k < after.len() implies (#[trigger] after[k]).balance == progress(
        expenses,
        i,
        slots + 1,
        after[k].id,
    ) by {
        let x = after[k].id;
        if k < balances.len() {
            assert(balance_ids(balances)[k] == balances[k].id);
            assert(balances[k].balance == progress(expenses, i, slots, balances[k].id));
        } else {
            lemma_first_occurrences(names);
            lemma_unrecorded(expenses, i, slots, who);
        }
    }
}

/// Once every slot of expense `i` is charged, the list is the ledger of the
/// expenses up to and including it.
proof fn lemma_expense_recorded(
    balances: Seq<PersonBalanceView>,
    expenses: Seq<ExpenseView>,
    i: int,
)
    requires
        0 <= i < expenses.len(),
        tallies_within(balances, expenses, i, expenses[i].receivers.len() as int),
    ensures
        tallies_before(balances, expenses, i + 1),
{
    let e = expenses[i];
    let next = expenses.take(i + 1);
    assert(next.drop_last() =~= expenses.take(i));
    assert(next.last() == e);
    assert(e.receivers.take(e.receivers.len() as int) =~= e.receivers);
    assert forall|k: int| 0 <= k < balances.len() implies (#[trigger] balances[k]).balance
        == net_balance(next, balances[k].id) by {
        assert(balances[k].balance == progress(
            expenses,
            i,
            e.receivers.len() as int,
            balances[k].id,
        ));
    }
}

/// Computes the ledger of `group`: every participant once, in the order of
/// first mention, with the net amount owed to them. The balances add up to
/// nothing.
pub fn compute_balance_from_group(group: &Group) -> (balances: Vec<PersonBalance>)
    requires
        all_have_receivers(group@.expenses),
    ensures
        balances.deep_view() == ledger(group@.expenses),
        total_balance(balances.deep_view()) == 0,
{
    let ghost expenses = group@.expenses;
    let mut balances: Vec<PersonBalance> = Vec::new();
    let mut i: usize = 0;
    proof {
        assert(balance_ids(balances.deep_view()) =~= participants(expenses.take(0)));
        assert forall|k: int| 0 <= k < expenses.len() implies (#[trigger] expenses[k]).in_range() by {
            assert(expenses[k] == group.expenses@[k]@);
        }
    }
    while i < group.expenses.len()
        invariant
            i <= group.expenses.len(),
            expenses == group@.expenses,
            all_have_receivers(expenses),
            all_in_range(expenses),
            tallies_before(balances.deep_view(), expenses, i as int),
        decreases group.expenses.len() - i,
    {
        let expense = &group.expenses[i];
        let ghost e = expenses[i as int];
        assert(expense@ == e);
        proof {
            let bs = balances.deep_view();
            lemma_participants(expenses.take(i as int));
            assert forall|k: int| 0 <= k < bs.len() && (#[trigger] bs[k]).id == e.payer implies i128::MIN
                <= bs[k].balance + e.amount <= i128::MAX by {
                lemma_progress_bounds(expenses, i as int, 0, e.payer);
            }
            lemma_credit_payer(bs, expenses, i as int);
        }
        credit(&mut balances, &expense.payer, expense.amount as i128);
        let mut j: usize = 0;
        while j < expense.receivers.len()
            invariant
                i < group.expenses.len(),
                j <= expense.receivers.len(),
                expenses == group@.expenses,
                all_have_receivers(expenses),
                all_in_range(expenses),
                e == expenses[i as int],
                expense@ == e,
                tallies_within(balances.deep_view(), expenses, i as int, j as int),
            decreases expense.receivers.len() - j,
        {
            let receiver = &expense.receivers[j];
            let charge = expense.charge(j);
            proof {
                lemma_charged(e, j as int);
                lemma_charged(e, j + 1);
                let bs = balances.deep_view();
                let who = e.receivers[j as int];
                assert(receiver@ == who);
                lemma_first_occurrences(recorded(expenses, i as int, j as int));
                assert forall|k: int| 0 <= k < bs.len() && (#[trigger] bs[k]).id == who implies i128::MIN
                    <= bs[k].balance + (-charge) <= i128::MAX by {
                    lemma_progress_bounds(expenses, i as int, j + 1, who);
                }
                lemma_credit_receiver(bs, expenses, i as int, j as int);
            }
            credit(&mut balances, receiver, -charge);
            j = j + 1;
        }
        proof {
            lemma_expense_recorded(balances.deep_view(), expenses, i as int);
        }
        i = i + 1;
    }
    proof {
        assert(expenses.take(i as int) =~= expenses);
        assert(balances.deep_view() =~= ledger(expenses)) by {
            let bs = balances.deep_view();
            assert forall|k: int| 0 <= k < bs.len() implies bs[k] == ledger(expenses)[k] by {
                assert(balance_ids(bs)[k] == bs[k].id);
                assert(bs[k].balance == net_balance(expenses, bs[k].id));
            }
        }
        lemma_ledger_total(expenses);
    }
    balances
}

/// The net balance of `user` over the expenses of `group`.
fn balance_in_group(user: &UserNick, group: &Group) -> (amount: i128)
    requires
        all_have_receivers(group@.expenses),
    ensures
        amount == net_balance(group@.expenses, user@),
{
    let ghost expenses = group@.expenses;
    let mut amount: i128 = 0;
    let mut i: usize = 0;
    proof {
        assert forall|k: int| 0 <= k < expenses.len() implies (#[trigger] expenses[k]).in_range() by {
            assert(expenses[k] == group.expenses@[k]@);
        }
    }
    while i < group.expenses.len()
        invariant
            i <= group.expenses.len(),
            expenses == group@.expenses,
            all_have_receivers(expenses),
            all_in_range(expenses),
            amount == net_balance(expenses.take(i as int), user@),
        decreases group.expenses.len() - i,
    {
        let expense = &group.expenses[i];
        let ghost e = expenses[i as int];
        assert(expense@ == e);
        proof {
            lemma_progress_bounds(expenses, i as int, 0, user@);
        }
        if expense.payer == *user {
            amount = amount + expense.amount as i128;
        }
        let mut j: usize = 0;
        while j < expense.receivers.len()
            invariant
                i < group.expenses.len(),
                j <= expense.receivers.len(),
                expenses == group@.expenses,
                all_have_receivers(expenses),
                all_in_range(expenses),
                e == expenses[i as int],
                expense@ == e,
                amount == progress(expenses, i as int, j as int, user@),
            decreases expense.receivers.len() - j,
        {
            proof {
                lemma_progress_bounds(expenses, i as int, j + 1, user@);
                lemma_charged(e, j as int);
                lemma_charged(e, j + 1);
                assert(expense.receivers[j as int]@ == e.receivers[j as int]);
            }
            if expense.receivers[j] == *user {
                amount = amount - expense.charge(j);
            }
            j = j + 1;
        }
        proof {
            assert(expenses.take(i + 1).drop_last() =~= expenses.take(i as int));
        }
        i = i + 1;
    }
    proof {
        assert(expenses.take(i as int) =~= expenses);
    }
    amount
}

/// Reports the standing of `user_nick` in each of `groups`, one entry for
/// every group and in the order given. Each amount is the net balance over that
/// group's expenses alone: the whole amount of every expense that the
/// participant paid, less what every receiver slot that the participant
/// holds is charged.
pub fn compute_user_balance_by_group(user_nick: UserNick, groups: Vec<Group>) -> (balances: Vec<
    UserGroupBalance,
>)
    requires
        groups_have_receivers(groups.deep_view()),
    ensures
        balances.deep_view() == groups.deep_view().map_values(
            |group: GroupView| standing_in(group, user_nick@),
        ),
{
    let mut balances: Vec<UserGroupBalance> = Vec::new();
    let mut g: usize = 0;
    while g < groups.len()
        invariant
            g <= groups.len(),
            groups_have_receivers(groups.deep_view()),
            balances.len() == g,
            forall|k: int|
                0 <= k < g ==> (#[trigger] balances.deep_view()[k]) == standing_in(
                    groups.deep_view()[k],
                    user_nick@,
                ),
        decreases groups.len() - g,
    {
        let group = &groups[g];
        assert(group@ == groups.deep_view()[g as int]);
        let amount = balance_in_group(&user_nick, group);
        let ghost before = balances.deep_view();
        balances.push(
            UserGroupBalance { group_id: group.id.clone(), group_name: group.name.clone(), amount },
        );
        proof {
            let after = balances.deep_view();
            assert forall|k: int| 0 <= k < g + 1 implies (#[trigger] after[k]) == standing_in(
                groups.deep_view()[k],
                user_nick@,
            ) by {
                if k < g {
                    assert(after[k] == before[k]);
                }
            }
        }
        g = g + 1;
    }
    proof {
        assert(balances.deep_view() =~= groups.deep_view().map_values(
            |group: GroupView| standing_in(group, user_nick@),
        ));
    }
    balances
}

} // verus!
