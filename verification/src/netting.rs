//! Pairwise netting: for every two participants, what one owes the other once
//! their mutual debts are set off, as one payment per pair.
use crate::balance::first_occurrences;
use crate::balance::lemma_first_occurrences;
use crate::balance::mentions;
use crate::counting::covers;
use crate::counting::lemma_sum_add;
use crate::counting::lemma_sum_same;
use crate::counting::lemma_sum_single;
use crate::counting::lemma_sum_charges;
use crate::counting::lemma_sum_zero;
use crate::counting::sum_over;
use crate::exchange::flow;
use crate::exchange::Exchange;
use crate::exchange::ExchangeView;
use crate::exchange::PeoplePair;
use crate::exchange::PeoplePairView;
use crate::names::lemma_precedes_asymmetric;
use crate::names::lemma_precedes_total;
use crate::names::lemma_precedes_transitive;
use crate::names::name_precedes;
use crate::names::precedes;
use crate::schemas::all_have_receivers;
use crate::schemas::all_in_range;
use crate::schemas::lemma_charged;
use crate::schemas::lemma_charged_to;
use crate::schemas::amount_limit;
use crate::schemas::net_balance;
use crate::schemas::Expense;
use crate::schemas::ExpenseView;
use vstd::prelude::*;
use vstd::seq_lib::commutative_foldl;
use vstd::seq_lib::lemma_fold_left_permutation;

verus! {

impl ExpenseView {
    /// What `debtor` owes `creditor` on account of this expense: what
    /// `debtor` is charged for the slots that `debtor` holds, if `creditor`
    /// paid.
    pub open spec fn owed_by(self, debtor: Seq<char>, creditor: Seq<char>) -> int {
        if self.payer == creditor {
            self.charged_to(self.receivers.len() as int, debtor)
        } else {
            0
        }
    }
}

/// What `debtor` owes `creditor` over `expenses`, less what `creditor` owes
/// `debtor`.
pub open spec fn net_owed(expenses: Seq<ExpenseView>, debtor: Seq<char>, creditor: Seq<char>) -> int
    decreases expenses.len(),
{
    if expenses.len() == 0 {
        0
    } else {
        net_owed(expenses.drop_last(), debtor, creditor) + expenses.last().owed_by(
            debtor,
            creditor,
        ) - expenses.last().owed_by(creditor, debtor)
    }
}

impl PeoplePairView {
    /// This pair comes strictly before `other`: by their first persons, and
    /// by their second persons where the first are the same.
    pub open spec fn comes_before(self, other: PeoplePairView) -> bool {
        precedes(self.person1, other.person1) || (self.person1 == other.person1 && precedes(
            self.person2,
            other.person2,
        ))
    }
}

impl ExchangeView {
    /// What this payment says `debtor` owes `creditor`: the amount if it
    /// goes from `debtor` to `creditor`, its negative if it goes the other way.
    pub open spec fn owed(self, debtor: Seq<char>, creditor: Seq<char>) -> int {
        (if self.payer == debtor && self.receiver == creditor {
            self.amount
        } else {
            0
        }) - (if self.payer == creditor && self.receiver == debtor {
            self.amount
        } else {
            0
        })
    }

    /// This payment is between `a` and `b`, in either direction.
    pub open spec fn joins(self, a: Seq<char>, b: Seq<char>) -> bool {
        (self.payer == a && self.receiver == b) || (self.payer == b && self.receiver == a)
    }

    /// The two parties of this payment, the one whose identifier comes first
    /// as the first person.
    pub open spec fn pair(self) -> PeoplePairView {
        if precedes(self.payer, self.receiver) {
            PeoplePairView { person1: self.payer, person2: self.receiver }
        } else {
            PeoplePairView { person1: self.receiver, person2: self.payer }
        }
    }
}

/// What `exchanges` say `debtor` owes `creditor`, net.
pub open spec fn pair_net(exchanges: Seq<ExchangeView>, debtor: Seq<char>, creditor: Seq<char>) -> int
    decreases exchanges.len(),
{
    if exchanges.len() == 0 {
        0
    } else {
        pair_net(exchanges.drop_last(), debtor, creditor) + exchanges.last().owed(
            debtor,
            creditor,
        )
    }
}

/// Every one of `exchanges` is a positive payment between two different
/// participants.
pub open spec fn all_proper(exchanges: Seq<ExchangeView>) -> bool {
    forall|k: int|
        0 <= k < exchanges.len() ==> (#[trigger] exchanges[k]).amount > 0 && exchanges[k].payer
            != exchanges[k].receiver
}

/// The payments stand in the order of their pairs, each pair before the
/// next: so there is at most one payment between any two participants.
pub open spec fn in_pair_order(exchanges: Seq<ExchangeView>) -> bool {
    forall|i: int, j: int|
        0 <= i < j < exchanges.len() ==> (#[trigger] exchanges[i]).pair().comes_before(
            (#[trigger] exchanges[j]).pair(),
        )
}

/// No two of `exchanges` are between the same two participants.
pub open spec fn one_per_pair(exchanges: Seq<ExchangeView>) -> bool {
    forall|i: int, j: int|
        0 <= i < j < exchanges.len() ==> !(#[trigger] exchanges[i]).joins(
            (#[trigger] exchanges[j]).payer,
            exchanges[j].receiver,
        )
}

/// `exchanges` is the pairwise netting of `expenses`: proper payments in the
/// order of their pairs, which between them say of every two participants
/// exactly what the expenses say the one owes the other.
pub open spec fn is_pairwise_netting(
    expenses: Seq<ExpenseView>,
    exchanges: Seq<ExchangeView>,
) -> bool {
    &&& all_proper(exchanges)
    &&& in_pair_order(exchanges)
    &&& forall|debtor: Seq<char>, creditor: Seq<char>|
        pair_net(exchanges, debtor, creditor) == net_owed(expenses, debtor, creditor)
}

/// The order of pairs is strict, transitive and total.
pub proof fn lemma_pair_order(a: PeoplePairView, b: PeoplePairView, c: PeoplePairView)
    ensures
        !a.comes_before(a),
        !(a.comes_before(b) && b.comes_before(a)),
        a.comes_before(b) && b.comes_before(c) ==> a.comes_before(c),
        a != b ==> a.comes_before(b) || b.comes_before(a),
{
    lemma_precedes_asymmetric(a.person1, b.person1);
    lemma_precedes_asymmetric(a.person2, b.person2);
    if a.comes_before(b) && b.comes_before(c) {
        if precedes(a.person1, b.person1) && precedes(b.person1, c.person1) {
            lemma_precedes_transitive(a.person1, b.person1, c.person1);
        }
        if precedes(a.person2, b.person2) && precedes(b.person2, c.person2) {
            lemma_precedes_transitive(a.person2, b.person2, c.person2);
        }
    }
    if a.person1 != b.person1 {
        lemma_precedes_total(a.person1, b.person1);
    } else if a.person2 != b.person2 {
        lemma_precedes_total(a.person2, b.person2);
    }
}

/// Payments between the same two participants have the same pair, in
/// whichever direction they go.
proof fn lemma_pair_of_joined(t: ExchangeView, a: Seq<char>, b: Seq<char>)
    requires
        t.joins(a, b),
    ensures
        t.pair() == (ExchangeView { payer: a, receiver: b, amount: 0 }).pair(),
{
    lemma_precedes_asymmetric(a, b);
    if a != b {
        lemma_precedes_total(a, b);
    }
}

/// Payments in the order of their pairs are one per pair.
pub proof fn lemma_pair_order_one_per_pair(exchanges: Seq<ExchangeView>)
    requires
        in_pair_order(exchanges),
    ensures
        one_per_pair(exchanges),
{
    assert forall|i: int, j: int| 0 <= i < j < exchanges.len() implies !(
    #[trigger] exchanges[i]).joins((#[trigger] exchanges[j]).payer, exchanges[j].receiver) by {
        if exchanges[i].joins(exchanges[j].payer, exchanges[j].receiver) {
            lemma_pair_of_joined(exchanges[i], exchanges[j].payer, exchanges[j].receiver);
            lemma_pair_of_joined(exchanges[j], exchanges[j].payer, exchanges[j].receiver);
            lemma_pair_order(exchanges[i].pair(), exchanges[j].pair(), exchanges[j].pair());
        }
    }
}

/// What one owes the other the other is owed by the one.
pub proof fn lemma_pair_net_antisymmetric(
    exchanges: Seq<ExchangeView>,
    debtor: Seq<char>,
    creditor: Seq<char>,
)
    ensures
        pair_net(exchanges, debtor, creditor) == -pair_net(exchanges, creditor, debtor),
    decreases exchanges.len(),
{
    if exchanges.len() > 0 {
        lemma_pair_net_antisymmetric(exchanges.drop_last(), debtor, creditor);
    }
}

/// Where no payment is between two participants, neither owes the other.
pub proof fn lemma_pair_net_absent(
    exchanges: Seq<ExchangeView>,
    debtor: Seq<char>,
    creditor: Seq<char>,
)
    requires
        forall|k: int| 0 <= k < exchanges.len() ==> !(#[trigger] exchanges[k]).joins(debtor, creditor),
    ensures
        pair_net(exchanges, debtor, creditor) == 0,
    decreases exchanges.len(),
{
    if exchanges.len() > 0 {
        let front = exchanges.drop_last();
        assert(!exchanges[exchanges.len() - 1].joins(debtor, creditor));
        assert forall|k: int| 0 <= k < front.len() implies !(#[trigger] front[k]).joins(
            debtor,
            creditor,
        ) by {
            assert(!exchanges[k].joins(debtor, creditor));
        }
        lemma_pair_net_absent(front, debtor, creditor);
    }
}

/// Where there is at most one payment per pair, what the list says a payer
/// owes the receiver is the amount of their one payment.
pub proof fn lemma_pair_net_entry(exchanges: Seq<ExchangeView>, k: int)
    requires
        one_per_pair(exchanges),
        0 <= k < exchanges.len(),
        exchanges[k].payer != exchanges[k].receiver,
    ensures
        pair_net(exchanges, exchanges[k].payer, exchanges[k].receiver) == exchanges[k].amount,
    decreases exchanges.len(),
{
    let front = exchanges.drop_last();
    let last = exchanges.last();
    let d = exchanges[k].payer;
    let c = exchanges[k].receiver;
    if k == exchanges.len() - 1 {
        assert forall|m: int| 0 <= m < front.len() implies !(#[trigger] front[m]).joins(d, c) by {
            assert(!exchanges[m].joins(exchanges[k].payer, exchanges[k].receiver));
        }
        lemma_pair_net_absent(front, d, c);
    } else {
        assert(!exchanges[k].joins(exchanges[exchanges.len() - 1].payer, last.receiver));
        assert forall|i: int, j: int| 0 <= i < j < front.len() implies !(#[trigger] front[i]).joins(
            (#[trigger] front[j]).payer,
            front[j].receiver,
        ) by {
            assert(!exchanges[i].joins(exchanges[j].payer, exchanges[j].receiver));
        }
        assert(front[k] == exchanges[k]);
        lemma_pair_net_entry(front, k);
    }
}

/// What two lists of payments say together is the sum of what each says.
proof fn lemma_pair_net_concat(
    first: Seq<ExchangeView>,
    second: Seq<ExchangeView>,
    debtor: Seq<char>,
    creditor: Seq<char>,
)
    ensures
        pair_net(first + second, debtor, creditor) == pair_net(first, debtor, creditor)
            + pair_net(second, debtor, creditor),
    decreases second.len(),
{
    if second.len() == 0 {
        assert(first + second =~= first);
    } else {
        assert((first + second).drop_last() =~= first + second.drop_last());
        lemma_pair_net_concat(first, second.drop_last(), debtor, creditor);
    }
}

/// In the pairwise netting every payment is of exactly what its payer owes
/// its receiver on balance.
pub proof fn lemma_netting_amounts(
    expenses: Seq<ExpenseView>,
    exchanges: Seq<ExchangeView>,
    k: int,
)
    requires
        is_pairwise_netting(expenses, exchanges),
        0 <= k < exchanges.len(),
    ensures
        exchanges[k].amount == net_owed(expenses, exchanges[k].payer, exchanges[k].receiver),
{
    lemma_pair_order_one_per_pair(exchanges);
    lemma_pair_net_entry(exchanges, k);
}

/// The pairwise netting holds a payment for every debt: whoever owes another
/// a positive amount on balance pays them exactly that.
pub proof fn lemma_netting_complete(
    expenses: Seq<ExpenseView>,
    exchanges: Seq<ExchangeView>,
    debtor: Seq<char>,
    creditor: Seq<char>,
)
    requires
        is_pairwise_netting(expenses, exchanges),
        net_owed(expenses, debtor, creditor) > 0,
    ensures
        exchanges.contains(
            ExchangeView {
                payer: debtor,
                receiver: creditor,
                amount: net_owed(expenses, debtor, creditor),
            },
        ),
{
    lemma_pair_order_one_per_pair(exchanges);
    if forall|k: int| 0 <= k < exchanges.len() ==> !(#[trigger] exchanges[k]).joins(debtor, creditor) {
        lemma_pair_net_absent(exchanges, debtor, creditor);
    } else {
        let k = choose|k: int| 0 <= k < exchanges.len() && (#[trigger] exchanges[k]).joins(debtor, creditor);
        lemma_pair_net_entry(exchanges, k);
        lemma_pair_net_antisymmetric(exchanges, debtor, creditor);
        assert(exchanges[k] == ExchangeView {
            payer: debtor,
            receiver: creditor,
            amount: net_owed(expenses, debtor, creditor),
        });
    }
}

/// Two lists of payments in the order of their pairs that hold the same
/// payments are the same list.
proof fn lemma_same_payments_same_list(first: Seq<ExchangeView>, second: Seq<ExchangeView>)
    requires
        in_pair_order(first),
        in_pair_order(second),
        forall|t: ExchangeView| first.contains(t) <==> second.contains(t),
    ensures
        first == second,
    decreases first.len(),
{
    if first.len() == 0 {
        if second.len() > 0 {
            assert(second.contains(second[0]));
        }
        assert(first =~= second);
    } else {
        let x = first.last();
        assert(first.contains(first[first.len() - 1]));
        let j = choose|j: int| 0 <= j < second.len() && second[j] == x;
        let y = second.last();
        assert(second.contains(second[second.len() - 1]));
        let i = choose|i: int| 0 <= i < first.len() && first[i] == y;
        lemma_pair_order(x.pair(), y.pair(), x.pair());
        if j < second.len() - 1 {
            assert(second[j].pair().comes_before(second[second.len() - 1].pair()));
            if i < first.len() - 1 {
                assert(first[i].pair().comes_before(first[first.len() - 1].pair()));
            }
        }
        assert(x == y);
        let rest1 = first.drop_last();
        let rest2 = second.drop_last();
        assert forall|a: int, b: int| 0 <= a < b < rest1.len() implies (
        #[trigger] rest1[a]).pair().comes_before((#[trigger] rest1[b]).pair()) by {
            assert(first[a].pair().comes_before(first[b].pair()));
        }
        assert forall|a: int, b: int| 0 <= a < b < rest2.len() implies (
        #[trigger] rest2[a]).pair().comes_before((#[trigger] rest2[b]).pair()) by {
            assert(second[a].pair().comes_before(second[b].pair()));
        }
        assert forall|t: ExchangeView| rest1.contains(t) <==> rest2.contains(t) by {
            lemma_pair_order(t.pair(), x.pair(), t.pair());
            if rest1.contains(t) {
                let a = choose|a: int| 0 <= a < rest1.len() && rest1[a] == t;
                assert(first[a].pair().comes_before(first[first.len() - 1].pair()));
                assert(first.contains(first[a]));
                let b = choose|b: int| 0 <= b < second.len() && second[b] == t;
                assert(rest2[b] == t);
            }
            if rest2.contains(t) {
                let b = choose|b: int| 0 <= b < rest2.len() && rest2[b] == t;
                assert(second[b].pair().comes_before(second[second.len() - 1].pair()));
                assert(second.contains(second[b]));
                let a = choose|a: int| 0 <= a < first.len() && first[a] == t;
                assert(rest1[a] == t);
            }
        }
        lemma_same_payments_same_list(rest1, rest2);
        assert(first =~= rest1.push(x));
        assert(second =~= rest2.push(y));
    }
}

/// Expenses have one pairwise netting and no other.
pub proof fn lemma_netting_unique(
    expenses: Seq<ExpenseView>,
    exchanges: Seq<ExchangeView>,
    others: Seq<ExchangeView>,
)
    requires
        is_pairwise_netting(expenses, exchanges),
        is_pairwise_netting(expenses, others),
    ensures
        exchanges == others,
{
    assert forall|t: ExchangeView| exchanges.contains(t) <==> others.contains(t) by {
        if exchanges.contains(t) {
            let k = choose|k: int| 0 <= k < exchanges.len() && exchanges[k] == t;
            lemma_netting_amounts(expenses, exchanges, k);
            lemma_netting_complete(expenses, others, t.payer, t.receiver);
        }
        if others.contains(t) {
            let k = choose|k: int| 0 <= k < others.len() && others[k] == t;
            lemma_netting_amounts(expenses, others, k);
            lemma_netting_complete(expenses, exchanges, t.payer, t.receiver);
        }
    }
    lemma_same_payments_same_list(exchanges, others);
}

/// What one participant owes another does not depend on the order of the
/// expenses.
pub proof fn lemma_net_owed_unordered(
    expenses: Seq<ExpenseView>,
    shuffled: Seq<ExpenseView>,
    debtor: Seq<char>,
    creditor: Seq<char>,
)
    requires
        expenses.to_multiset() == shuffled.to_multiset(),
    ensures
        net_owed(expenses, debtor, creditor) == net_owed(shuffled, debtor, creditor),
{
    let step = |sum: int, e: ExpenseView|
        sum + e.owed_by(debtor, creditor) - e.owed_by(creditor, debtor);
    lemma_net_owed_folds(expenses, debtor, creditor);
    lemma_net_owed_folds(shuffled, debtor, creditor);
    assert(commutative_foldl(step));
    lemma_fold_left_permutation(expenses, shuffled, step, 0int);
}

/// What one participant owes another is a sum over the expenses, taken one
/// after the other.
proof fn lemma_net_owed_folds(expenses: Seq<ExpenseView>, debtor: Seq<char>, creditor: Seq<char>)
    ensures
        net_owed(expenses, debtor, creditor) == expenses.fold_left(
            0int,
            |sum: int, e: ExpenseView|
                sum + e.owed_by(debtor, creditor) - e.owed_by(creditor, debtor),
        ),
    decreases expenses.len(),
{
    if expenses.len() > 0 {
        lemma_net_owed_folds(expenses.drop_last(), debtor, creditor);
    }
}

/// The pairwise netting does not depend on the order of the expenses: two
/// lists that hold the same expenses, each as often, have the same netting.
pub proof fn lemma_netting_unordered(
    expenses: Seq<ExpenseView>,
    shuffled: Seq<ExpenseView>,
    exchanges: Seq<ExchangeView>,
    others: Seq<ExchangeView>,
)
    requires
        expenses.to_multiset() == shuffled.to_multiset(),
        is_pairwise_netting(expenses, exchanges),
        is_pairwise_netting(shuffled, others),
    ensures
        exchanges == others,
        exchanges.to_multiset() == others.to_multiset(),
{
    assert forall|debtor: Seq<char>, creditor: Seq<char>|
        pair_net(others, debtor, creditor) == net_owed(expenses, debtor, creditor) by {
        lemma_net_owed_unordered(expenses, shuffled, debtor, creditor);
    }
    lemma_netting_unique(expenses, exchanges, others);
}

/// The payers and receivers of `exchanges`, in order.
spec fn parties(exchanges: Seq<ExchangeView>) -> Seq<Seq<char>>
    decreases exchanges.len(),
{
    if exchanges.len() == 0 {
        Seq::empty()
    } else {
        parties(exchanges.drop_last()).push(exchanges.last().payer).push(
            exchanges.last().receiver,
        )
    }
}

/// What a list of payments brings `who` is what everybody owes `who`
/// according to the list, summed over a list that names every party once.
proof fn lemma_flow_by_pairs(
    names: Seq<Seq<char>>,
    exchanges: Seq<ExchangeView>,
    who: Seq<char>,
)
    requires
        names.no_duplicates(),
        covers(names, parties(exchanges)),
    ensures
        flow(exchanges, who) == sum_over(names, |q: Seq<char>| pair_net(exchanges, q, who)),
    decreases exchanges.len(),
{
    let total = |q: Seq<char>| pair_net(exchanges, q, who);
    if exchanges.len() == 0 {
        lemma_sum_same(names, total, |q: Seq<char>| 0int);
        lemma_sum_zero(names);
    } else {
        let front = exchanges.drop_last();
        let last = exchanges.last();
        let known = parties(front);
        let earlier = |q: Seq<char>| pair_net(front, q, who);
        let owed = |q: Seq<char>| last.owed(q, who);
        let received = |q: Seq<char>|
            if q == last.payer {
                if last.receiver == who {
                    last.amount
                } else {
                    0int
                }
            } else {
                0int
            };
        let paid = |q: Seq<char>|
            if q == last.receiver {
                if last.payer == who {
                    -last.amount
                } else {
                    0int
                }
            } else {
                0int
            };
        assert forall|k: int| 0 <= k < known.len() implies names.contains(#[trigger] known[k]) by {
            assert(parties(exchanges)[k] == known[k]);
        }
        assert(parties(exchanges)[known.len() as int] == last.payer);
        assert(parties(exchanges)[known.len() as int + 1] == last.receiver);
        assert forall|q: Seq<char>| #[trigger] owed(q) == received(q) + paid(q) by {}
        lemma_sum_add(names, total, earlier, owed);
        lemma_flow_by_pairs(names, front, who);
        lemma_sum_add(names, owed, received, paid);
        lemma_sum_single(
            names,
            received,
            last.payer,
            if last.receiver == who {
                last.amount
            } else {
                0int
            },
        );
        lemma_sum_single(
            names,
            paid,
            last.receiver,
            if last.payer == who {
                -last.amount
            } else {
                0int
            },
        );
    }
}

/// The net balance of `who` is what everybody owes `who` on balance, summed
/// over a list that names every participant once.
proof fn lemma_balance_by_pairs(names: Seq<Seq<char>>, expenses: Seq<ExpenseView>, who: Seq<char>)
    requires
        names.no_duplicates(),
        covers(names, mentions(expenses)),
        all_have_receivers(expenses),
    ensures
        net_balance(expenses, who) == sum_over(names, |q: Seq<char>| net_owed(expenses, q, who)),
    decreases expenses.len(),
{
    let total = |q: Seq<char>| net_owed(expenses, q, who);
    if expenses.len() == 0 {
        lemma_sum_same(names, total, |q: Seq<char>| 0int);
        lemma_sum_zero(names);
    } else {
        let front = expenses.drop_last();
        let last = expenses.last();
        let slots = last.receivers.len() as int;
        let seen = mentions(front);
        let earlier = |q: Seq<char>| net_owed(front, q, who);
        let owed = |q: Seq<char>| last.owed_by(q, who) - last.owed_by(who, q);
        let to_who = |q: Seq<char>| last.owed_by(q, who);
        let from_who = |q: Seq<char>|
            if q == last.payer {
                -last.charged_to(slots, who)
            } else {
                0int
            };
        assert(expenses[expenses.len() - 1].receivers.len() > 0);
        assert forall|m: int| 0 <= m < front.len() implies (#[trigger] front[m]).receivers.len()
            > 0 by {
            assert(expenses[m].receivers.len() > 0);
        }
        assert forall|k: int| 0 <= k < seen.len() implies names.contains(#[trigger] seen[k]) by {
            assert(mentions(expenses)[k] == seen[k]);
        }
        assert(mentions(expenses)[seen.len() as int] == last.payer);
        assert forall|k: int| 0 <= k < last.receivers.len() implies names.contains(
            #[trigger] last.receivers[k],
        ) by {
            assert(mentions(expenses)[seen.len() + 1 + k] == last.receivers[k]);
        }
        assert forall|q: Seq<char>| #[trigger] owed(q) == to_who(q) + from_who(q) by {}
        lemma_sum_add(names, total, earlier, owed);
        lemma_balance_by_pairs(names, front, who);
        lemma_sum_add(names, owed, to_who, from_who);
        if last.payer == who {
            lemma_sum_charges(names, to_who, last, slots);
            lemma_charged(last, slots);
        } else {
            lemma_sum_same(names, to_who, |q: Seq<char>| 0int);
            lemma_sum_zero(names);
        }
        lemma_sum_single(names, from_who, last.payer, -last.charged_to(slots, who));
    }
}

/// Payments that say of every two participants what the expenses say bring
/// every participant their net balance.
pub proof fn lemma_netting_flow(
    expenses: Seq<ExpenseView>,
    exchanges: Seq<ExchangeView>,
    who: Seq<char>,
)
    requires
        all_have_receivers(expenses),
        forall|debtor: Seq<char>, creditor: Seq<char>|
            pair_net(exchanges, debtor, creditor) == net_owed(expenses, debtor, creditor),
    ensures
        flow(exchanges, who) == net_balance(expenses, who),
{
    let everybody = mentions(expenses) + parties(exchanges);
    let names = first_occurrences(everybody);
    lemma_first_occurrences(everybody);
    assert forall|k: int| 0 <= k < mentions(expenses).len() implies names.contains(
        #[trigger] mentions(expenses)[k],
    ) by {
        assert(everybody[k] == mentions(expenses)[k]);
        assert(everybody.contains(everybody[k]));
    }
    assert forall|k: int| 0 <= k < parties(exchanges).len() implies names.contains(
        #[trigger] parties(exchanges)[k],
    ) by {
        assert(everybody[mentions(expenses).len() + k] == parties(exchanges)[k]);
        assert(everybody.contains(everybody[mentions(expenses).len() + k]));
    }
    lemma_flow_by_pairs(names, exchanges, who);
    lemma_balance_by_pairs(names, expenses, who);
    lemma_sum_same(
        names,
        |q: Seq<char>| pair_net(exchanges, q, who),
        |q: Seq<char>| net_owed(expenses, q, who),
    );
}

/// The pairwise netting settles everybody: it brings every participant
/// their net balance.
pub proof fn lemma_netting_settles(
    expenses: Seq<ExpenseView>,
    exchanges: Seq<ExchangeView>,
    who: Seq<char>,
)
    requires
        all_have_receivers(expenses),
        is_pairwise_netting(expenses, exchanges),
    ensures
        flow(exchanges, who) == net_balance(expenses, who),
{
    lemma_netting_flow(expenses, exchanges, who);
}

/// What one participant owes another on balance is bounded by the number of
/// expenses times the largest amount.
pub proof fn lemma_net_owed_bounds(
    expenses: Seq<ExpenseView>,
    debtor: Seq<char>,
    creditor: Seq<char>,
)
    requires
        all_have_receivers(expenses),
        all_in_range(expenses),
    ensures
        -expenses.len() * amount_limit() <= net_owed(expenses, debtor, creditor) <= expenses.len()
            * amount_limit(),
    decreases expenses.len(),
{
    if expenses.len() > 0 {
        let front = expenses.drop_last();
        let last = expenses.last();
        assert(expenses[expenses.len() - 1].in_range());
        assert forall|m: int| 0 <= m < front.len() implies (#[trigger] front[m]).receivers.len()
            > 0 && front[m].in_range() by {
            assert(expenses[m].in_range());
        }
        lemma_net_owed_bounds(front, debtor, creditor);
        lemma_owed_bounds(last, last.receivers.len() as int, debtor, creditor);
    }
}

impl ExpenseView {
    /// [`Self::owed_by`] when only the first `slots` slots count.
    spec fn owed_by_upto(self, slots: int, debtor: Seq<char>, creditor: Seq<char>) -> int {
        if self.payer == creditor {
            self.charged_to(slots, debtor)
        } else {
            0
        }
    }
}

/// On account of one expense nobody owes another more than its amount.
proof fn lemma_owed_bounds(e: ExpenseView, slots: int, debtor: Seq<char>, creditor: Seq<char>)
    requires
        e.receivers.len() > 0,
        0 <= slots <= e.receivers.len(),
    ensures
        e.amount >= 0 ==> -e.amount <= e.owed_by_upto(slots, debtor, creditor) - e.owed_by_upto(
            slots,
            creditor,
            debtor,
        ) <= e.amount,
        e.amount < 0 ==> e.amount <= e.owed_by_upto(slots, debtor, creditor) - e.owed_by_upto(
            slots,
            creditor,
            debtor,
        ) <= -e.amount,
{
    lemma_charged_to(e, slots, debtor);
    lemma_charged_to(e, slots, creditor);
}

/// What `debtor` owes `creditor` on balance once the first `i` expenses and
/// the first `slots` slots of expense `i` have been entered.
spec fn netted(
    expenses: Seq<ExpenseView>,
    i: int,
    slots: int,
    debtor: Seq<char>,
    creditor: Seq<char>,
) -> int {
    net_owed(expenses.take(i), debtor, creditor) + expenses[i].owed_by_upto(
        slots,
        debtor,
        creditor,
    ) - expenses[i].owed_by_upto(slots, creditor, debtor)
}

/// The debt that slot `slots` of expense `i` stands for: its holder owes the
/// payer what the slot is charged.
spec fn slot_debt(expenses: Seq<ExpenseView>, i: int, slots: int) -> ExchangeView {
    ExchangeView {
        payer: expenses[i].receivers[slots],
        receiver: expenses[i].payer,
        amount: expenses[i].charge(slots),
    }
}

/// Entering one more slot adds that slot's debt and nothing else.
proof fn lemma_slot_entered(
    expenses: Seq<ExpenseView>,
    i: int,
    slots: int,
    debtor: Seq<char>,
    creditor: Seq<char>,
)
    requires
        0 <= i < expenses.len(),
        0 <= slots < expenses[i].receivers.len(),
    ensures
        netted(expenses, i, slots + 1, debtor, creditor) == netted(
            expenses,
            i,
            slots,
            debtor,
            creditor,
        ) + slot_debt(expenses, i, slots).owed(debtor, creditor),
{
}

/// Before any slot of expense `i` is entered the state is that of the
/// expenses before it; once all are entered it is that of the expenses up to
/// and including it.
proof fn lemma_expense_entered(
    expenses: Seq<ExpenseView>,
    i: int,
    debtor: Seq<char>,
    creditor: Seq<char>,
)
    requires
        0 <= i < expenses.len(),
    ensures
        netted(expenses, i, 0, debtor, creditor) == net_owed(expenses.take(i), debtor, creditor),
        netted(expenses, i, expenses[i].receivers.len() as int, debtor, creditor) == net_owed(
            expenses.take(i + 1),
            debtor,
            creditor,
        ),
{
    let e = expenses[i];
    assert(expenses.take(i + 1).drop_last() =~= expenses.take(i));
    assert(expenses.take(i + 1).last() == e);
}

/// While expense `i` is being entered every pair's balance stays in range.
proof fn lemma_netted_bounds(
    expenses: Seq<ExpenseView>,
    i: int,
    slots: int,
    debtor: Seq<char>,
    creditor: Seq<char>,
)
    requires
        all_have_receivers(expenses),
        all_in_range(expenses),
        0 <= i < expenses.len() <= usize::MAX,
        0 <= slots <= expenses[i].receivers.len(),
    ensures
        i128::MIN < netted(expenses, i, slots, debtor, creditor) <= i128::MAX,
{
    let done = expenses.take(i);
    assert forall|m: int| 0 <= m < done.len() implies (#[trigger] done[m]).receivers.len() > 0
        && done[m].in_range() by {
        assert(expenses[m].in_range());
    }
    lemma_net_owed_bounds(done, debtor, creditor);
    lemma_owed_bounds(expenses[i], slots, debtor, creditor);
    assert(expenses[i].in_range());
}

impl ExchangeView {
    /// This debt as a payment: turned round if its amount is negative.
    spec fn settled(self) -> ExchangeView {
        if self.amount < 0 {
            ExchangeView { payer: self.receiver, receiver: self.payer, amount: -self.amount }
        } else {
            self
        }
    }
}

/// The payments that `debts` come to: those of amount zero left out, the
/// negative ones turned round.
spec fn settled(debts: Seq<ExchangeView>) -> Seq<ExchangeView>
    decreases debts.len(),
{
    if debts.len() == 0 {
        Seq::empty()
    } else if debts.last().amount == 0 {
        settled(debts.drop_last())
    } else {
        settled(debts.drop_last()).push(debts.last().settled())
    }
}

/// Every payment that `debts` come to is one of the debts, of an amount other
/// than zero, with its amount made positive.
proof fn lemma_settled_sources(debts: Seq<ExchangeView>, k: int)
    requires
        0 <= k < settled(debts).len(),
    ensures
        exists|m: int|
            0 <= m < debts.len() && (#[trigger] debts[m]).amount != 0 && settled(debts)[k]
                == debts[m].settled(),
    decreases debts.len(),
{
    let front = debts.drop_last();
    if debts.last().amount != 0 && k == settled(front).len() {
        assert(debts[debts.len() - 1].amount != 0);
    } else {
        lemma_settled_sources(front, k);
        let m = choose|m: int|
            0 <= m < front.len() && (#[trigger] front[m]).amount != 0 && settled(front)[k]
                == front[m].settled();
        assert(debts[m].amount != 0);
    }
}

/// Turning a payment round keeps its pair.
proof fn lemma_settled_pair(t: ExchangeView)
    ensures
        t.settled().pair() == t.pair(),
{
    lemma_precedes_asymmetric(t.payer, t.receiver);
    if t.payer != t.receiver {
        lemma_precedes_total(t.payer, t.receiver);
    }
}

/// Settling keeps what every two participants owe each other, makes every
/// amount positive, and keeps the order of the pairs.
proof fn lemma_settled(debts: Seq<ExchangeView>)
    ensures
        forall|debtor: Seq<char>, creditor: Seq<char>|
            pair_net(settled(debts), debtor, creditor) == pair_net(debts, debtor, creditor),
        in_pair_order(debts) ==> in_pair_order(settled(debts)),
        (forall|m: int| 0 <= m < debts.len() ==> (#[trigger] debts[m]).payer != debts[m].receiver)
            ==> all_proper(settled(debts)),
    decreases debts.len(),
{
    if debts.len() > 0 {
        let front = debts.drop_last();
        let last = debts.last();
        lemma_settled(front);
        if last.amount != 0 {
            assert(settled(debts).drop_last() =~= settled(front));
        }
        assert forall|debtor: Seq<char>, creditor: Seq<char>|
            pair_net(settled(debts), debtor, creditor) == pair_net(debts, debtor, creditor) by {
            assert(pair_net(settled(front), debtor, creditor) == pair_net(front, debtor, creditor));
        }
        if in_pair_order(debts) {
            assert forall|i: int, j: int| 0 <= i < j < front.len() implies (
            #[trigger] front[i]).pair().comes_before((#[trigger] front[j]).pair()) by {
                assert(debts[i].pair().comes_before(debts[j].pair()));
            }
            assert forall|i: int, j: int| 0 <= i < j < settled(debts).len() implies (
            #[trigger] settled(debts)[i]).pair().comes_before(
                (#[trigger] settled(debts)[j]).pair(),
            ) by {
                if j < settled(front).len() {
                    assert(settled(front)[i].pair().comes_before(settled(front)[j].pair()));
                } else {
                    lemma_settled_sources(front, i);
                    let m = choose|m: int|
                        0 <= m < front.len() && (#[trigger] front[m]).amount != 0 && settled(
                            front,
                        )[i] == front[m].settled();
                    assert(debts[m].pair().comes_before(debts[debts.len() - 1].pair()));
                    lemma_settled_pair(front[m]);
                    lemma_settled_pair(last);
                }
            }
        }
        if forall|m: int| 0 <= m < debts.len() ==> (#[trigger] debts[m]).payer != debts[m].receiver {
            assert(debts[debts.len() - 1].payer != last.receiver);
            assert forall|m: int| 0 <= m < front.len() implies (#[trigger] front[m]).payer
                != front[m].receiver by {
                assert(debts[m].payer != debts[m].receiver);
            }
        }
    }
}

/// What the second person of a pair owes the first on balance.
struct PairBalance {
    pair: PeoplePair,
    balance: i128,
}

impl PairBalance {
    /// This entry as a debt: `person2` owes `person1` the balance.
    spec fn as_debt(self) -> ExchangeView {
        ExchangeView {
            payer: self.pair.person2@,
            receiver: self.pair.person1@,
            amount: self.balance as int,
        }
    }
}

/// The debts that the entries of `pairs` stand for.
spec fn debts(pairs: Seq<PairBalance>) -> Seq<ExchangeView> {
    pairs.map_values(|p: PairBalance| p.as_debt())
}

/// Every debt is held in its one storage direction: owed to the participant
/// whose identifier comes first.
spec fn canonical(debts: Seq<ExchangeView>) -> bool {
    forall|k: int| 0 <= k < debts.len() ==> precedes((#[trigger] debts[k]).receiver, debts[k].payer)
}

/// The pair list is well kept: every debt in its storage direction, the
/// debts in the order of their pairs.
spec fn well_kept(debts: Seq<ExchangeView>) -> bool {
    canonical(debts) && in_pair_order(debts)
}

/// The pair of a debt in its storage direction is the receiver, then the
/// payer.
proof fn lemma_canonical_pair(t: ExchangeView)
    requires
        precedes(t.receiver, t.payer),
    ensures
        t.pair() == (PeoplePairView { person1: t.receiver, person2: t.payer }),
        t.payer != t.receiver,
{
    lemma_precedes_asymmetric(t.receiver, t.payer);
}

/// Whether `pair` comes before the pair of `first` and `second`.
fn pair_before(pair: &PeoplePair, first: &String, second: &String) -> (before: bool)
    ensures
        before == pair@.comes_before(PeoplePairView { person1: first@, person2: second@ }),
{
    name_precedes(&pair.person1, first) || (pair.person1 == *first && name_precedes(
        &pair.person2,
        second,
    ))
}

/// Enters the debt of one receiver slot: `receiver` owes `payer` the `charge`.
/// The debt is added to the entry of their pair, which is put in at its place
/// if there is none yet.
fn record(pairs: &mut Vec<PairBalance>, payer: &String, receiver: &String, charge: i128)
    requires
        payer@ != receiver@,
        i128::MIN < charge,
        well_kept(debts(old(pairs)@)),
        forall|k: int|
            0 <= k < old(pairs).len() && (#[trigger] debts(old(pairs)@)[k]).joins(
                payer@,
                receiver@,
            ) ==> i128::MIN < debts(old(pairs)@)[k].amount + (if debts(old(pairs)@)[k].payer
                == receiver@ {
                charge as int
            } else {
                -charge
            }) <= i128::MAX,
    ensures
        well_kept(debts(final(pairs)@)),
        forall|debtor: Seq<char>, creditor: Seq<char>|
            pair_net(debts(final(pairs)@), debtor, creditor) == pair_net(
                debts(old(pairs)@),
                debtor,
                creditor,
            ) + (ExchangeView { payer: receiver@, receiver: payer@, amount: charge as int }).owed(
                debtor,
                creditor,
            ),
{
    let ghost before = debts(pairs@);
    let ghost slot = ExchangeView { payer: receiver@, receiver: payer@, amount: charge as int };
    let payer_first = name_precedes(payer, receiver);
    let first = if payer_first {
        payer
    } else {
        receiver
    };
    let second = if payer_first {
        receiver
    } else {
        payer
    };
    let delta: i128 = if payer_first {
        charge
    } else {
        -charge
    };
    proof {
        lemma_precedes_asymmetric(payer@, receiver@);
        lemma_precedes_total(payer@, receiver@);
    }
    let ghost added = ExchangeView { payer: second@, receiver: first@, amount: delta as int };
    let ghost key = PeoplePairView { person1: first@, person2: second@ };
    proof {
        lemma_canonical_pair(added);
        assert forall|debtor: Seq<char>, creditor: Seq<char>|
            added.owed(debtor, creditor) == slot.owed(debtor, creditor) by {}
        assert forall|m: int| 0 <= m < before.len() implies (#[trigger] before[m]).pair()
            == pairs@[m].pair@ by {
            lemma_canonical_pair(before[m]);
        }
    }
    let mut k: usize = 0;
    while k < pairs.len() && pair_before(&pairs[k].pair, first, second)
        invariant
            k <= pairs.len(),
            debts(pairs@) == before,
            key == (PeoplePairView { person1: first@, person2: second@ }),
            forall|m: int| 0 <= m < before.len() ==> (#[trigger] before[m]).pair() == pairs@[m].pair@,
            forall|m: int| 0 <= m < k ==> (#[trigger] before[m]).pair().comes_before(key),
        decreases pairs.len() - k,
    {
        k = k + 1;
    }
    if k < pairs.len() && pairs[k].pair.person1 == *first && pairs[k].pair.person2 == *second {
        let ghost found = before[k as int];
        proof {
            assert(found == pairs@[k as int].as_debt());
            assert(found.joins(payer@, receiver@));
        }
        pairs[k].balance = pairs[k].balance + delta;
        proof {
            let after = debts(pairs@);
            let entry = ExchangeView { amount: found.amount + delta, ..found };
            assert(after =~= before.update(k as int, entry));
            assert forall|debtor: Seq<char>, creditor: Seq<char>|
                pair_net(after, debtor, creditor) == pair_net(before, debtor, creditor)
                    + added.owed(debtor, creditor) by {
                lemma_pair_net_update(before, k as int, entry, debtor, creditor);
            }
            assert forall|m: int| 0 <= m < after.len() implies precedes(
                (#[trigger] after[m]).receiver,
                after[m].payer,
            ) by {
                assert(precedes(before[m].receiver, before[m].payer));
            }
            assert forall|i: int, j: int| 0 <= i < j < after.len() implies (
            #[trigger] after[i]).pair().comes_before((#[trigger] after[j]).pair()) by {
                assert(before[i].pair().comes_before(before[j].pair()));
            }
        }
    } else {
        proof {
            if k < pairs.len() {
                assert(before[k as int].pair() == pairs@[k as int].pair@);
                assert(before[k as int].pair() != key);
                assert(!before[k as int].pair().comes_before(key));
                lemma_pair_order(before[k as int].pair(), key, key);
            }
        }
        pairs.insert(
            k,
            PairBalance {
                pair: PeoplePair { person1: first.clone(), person2: second.clone() },
                balance: delta,
            },
        );
        proof {
            let after = debts(pairs@);
            assert(after =~= before.insert(k as int, added));
            assert(after =~= before.take(k as int).push(added) + before.skip(k as int));
            assert(before =~= before.take(k as int) + before.skip(k as int));
            assert(before.take(k as int).push(added).drop_last() =~= before.take(k as int));
            assert forall|debtor: Seq<char>, creditor: Seq<char>|
                pair_net(after, debtor, creditor) == pair_net(before, debtor, creditor)
                    + added.owed(debtor, creditor) by {
                lemma_pair_net_concat(
                    before.take(k as int).push(added),
                    before.skip(k as int),
                    debtor,
                    creditor,
                );
                lemma_pair_net_concat(
                    before.take(k as int),
                    before.skip(k as int),
                    debtor,
                    creditor,
                );
            }
            assert forall|m: int| 0 <= m < after.len() implies precedes(
                (#[trigger] after[m]).receiver,
                after[m].payer,
            ) by {
                if m < k {
                    assert(precedes(before[m].receiver, before[m].payer));
                } else if m > k {
                    assert(precedes(before[m - 1].receiver, before[m - 1].payer));
                }
            }
            assert forall|i: int, j: int| 0 <= i < j < after.len() implies (
            #[trigger] after[i]).pair().comes_before((#[trigger] after[j]).pair()) by {
                if j < k {
                    assert(before[i].pair().comes_before(before[j].pair()));
                } else if j == k {
                    assert(before[i].pair().comes_before(key));
                } else if i < k {
                    assert(before[i].pair().comes_before(before[j - 1].pair()));
                } else if i == k {
                    if j - 1 > k {
                        assert(before[k as int].pair().comes_before(before[j - 1].pair()));
                    }
                    lemma_pair_order(key, before[k as int].pair(), before[j - 1].pair());
                } else {
                    assert(before[i - 1].pair().comes_before(before[j - 1].pair()));
                }
            }
        }
    }
}

/// Replacing one payment of a list changes what the list says by the
/// difference of what the two payments say.
proof fn lemma_pair_net_update(
    exchanges: Seq<ExchangeView>,
    k: int,
    t: ExchangeView,
    debtor: Seq<char>,
    creditor: Seq<char>,
)
    requires
        0 <= k < exchanges.len(),
    ensures
        pair_net(exchanges.update(k, t), debtor, creditor) == pair_net(
            exchanges,
            debtor,
            creditor,
        ) - exchanges[k].owed(debtor, creditor) + t.owed(debtor, creditor),
    decreases exchanges.len(),
{
    let updated = exchanges.update(k, t);
    if k == exchanges.len() - 1 {
        assert(updated.drop_last() =~= exchanges.drop_last());
    } else {
        assert(updated.drop_last() =~= exchanges.drop_last().update(k, t));
        lemma_pair_net_update(exchanges.drop_last(), k, t, debtor, creditor);
    }
}

/// The state of the pair list once the first `i` expenses and the first
/// `slots` slots of expense `i` have been entered.
spec fn entered(debts: Seq<ExchangeView>, expenses: Seq<ExpenseView>, i: int, slots: int) -> bool {
    &&& well_kept(debts)
    &&& forall|debtor: Seq<char>, creditor: Seq<char>|
        pair_net(debts, debtor, creditor) == netted(expenses, i, slots, debtor, creditor)
}

/// Nets the expenses pair by pair. For every two participants the charges
/// that each owes the other are set off against each other; a pair whose
/// debts do not cancel gets one payment, from the one who owes more to the
/// other, of the difference. Nobody pays themselves, and a pair whose debts
/// cancel gets no payment. The payments come in the order of their pairs.
///
/// The payments together bring every participant their net balance.
pub fn get_reverse_expenses(expenses: &Vec<Expense>) -> (exchanges: Vec<Exchange>)
    requires
        all_have_receivers(expenses.deep_view()),
    ensures
        is_pairwise_netting(expenses.deep_view(), exchanges.deep_view()),
        forall|who: Seq<char>|
            flow(exchanges.deep_view(), who) == net_balance(expenses.deep_view(), who),
{
    let ghost all = expenses.deep_view();
    let mut pairs: Vec<PairBalance> = Vec::new();
    let mut i: usize = 0;
    proof {
        assert forall|k: int| 0 <= k < all.len() implies (#[trigger] all[k]).in_range() by {
            assert(all[k] == expenses@[k]@);
        }
    }
    while i < expenses.len()
        invariant
            i <= expenses.len(),
            all == expenses.deep_view(),
            all_have_receivers(all),
            all_in_range(all),
            well_kept(debts(pairs@)),
            forall|debtor: Seq<char>, creditor: Seq<char>|
                pair_net(debts(pairs@), debtor, creditor) == net_owed(
                    all.take(i as int),
                    debtor,
                    creditor,
                ),
        decreases expenses.len() - i,
    {
        let expense = &expenses[i];
        let ghost e = all[i as int];
        assert(expense@ == e);
        proof {
            assert forall|debtor: Seq<char>, creditor: Seq<char>|
                pair_net(debts(pairs@), debtor, creditor) == netted(
                    all,
                    i as int,
                    0,
                    debtor,
                    creditor,
                ) by {
                lemma_expense_entered(all, i as int, debtor, creditor);
            }
        }
        let mut j: usize = 0;
        while j < expense.receivers.len()
            invariant
                i < expenses.len(),
                j <= expense.receivers.len(),
                all == expenses.deep_view(),
                all_have_receivers(all),
                all_in_range(all),
                e == all[i as int],
                expense@ == e,
                entered(debts(pairs@), all, i as int, j as int),
            decreases expense.receivers.len() - j,
        {
            let receiver = &expense.receivers[j];
            let ghost before = debts(pairs@);
            assert(receiver@ == e.receivers[j as int]);
            if expense.payer != *receiver {
                let charge = expense.charge(j);
                proof {
                    lemma_charged(e, j as int);
                    lemma_charged(e, j + 1);
                    lemma_pair_order_one_per_pair(before);
                    assert forall|k: int|
                        0 <= k < before.len() && (#[trigger] before[k]).joins(
                            expense.payer@,
                            receiver@,
                        ) implies i128::MIN < before[k].amount + (if before[k].payer == receiver@ {
                        charge as int
                    } else {
                        -charge
                    }) <= i128::MAX by {
                        let d = before[k].payer;
                        let c = before[k].receiver;
                        lemma_pair_net_entry(before, k);
                        lemma_slot_entered(all, i as int, j as int, d, c);
                        lemma_netted_bounds(all, i as int, j + 1, d, c);
                    }
                }
                record(&mut pairs, &expense.payer, receiver, charge);
            }
            proof {
                let after = debts(pairs@);
                assert forall|debtor: Seq<char>, creditor: Seq<char>|
                    pair_net(after, debtor, creditor) == netted(
                        all,
                        i as int,
                        j + 1,
                        debtor,
                        creditor,
                    ) by {
                    lemma_slot_entered(all, i as int, j as int, debtor, creditor);
                    assert(pair_net(before, debtor, creditor) == netted(
                        all,
                        i as int,
                        j as int,
                        debtor,
                        creditor,
                    ));
                }
            }
            j = j + 1;
        }
        proof {
            assert forall|debtor: Seq<char>, creditor: Seq<char>|
                pair_net(debts(pairs@), debtor, creditor) == net_owed(
                    all.take(i + 1),
                    debtor,
                    creditor,
                ) by {
                lemma_expense_entered(all, i as int, debtor, creditor);
                assert(pair_net(debts(pairs@), debtor, creditor) == netted(
                    all,
                    i as int,
                    j as int,
                    debtor,
                    creditor,
                ));
            }
        }
        i = i + 1;
    }
    let ghost owing = debts(pairs@);
    proof {
        assert(all.take(i as int) =~= all);
        lemma_pair_order_one_per_pair(owing);
        assert forall|k: int| 0 <= k < owing.len() implies i128::MIN < (#[trigger] owing[k]).amount
            <= i128::MAX && owing[k].payer != owing[k].receiver by {
            lemma_precedes_asymmetric(owing[k].payer, owing[k].receiver);
            lemma_pair_net_entry(owing, k);
            lemma_net_owed_bounds(all, owing[k].payer, owing[k].receiver);
        }
    }
    let mut exchanges: Vec<Exchange> = Vec::new();
    let mut k: usize = 0;
    assert(owing.take(0) =~= Seq::<ExchangeView>::empty());
    while k < pairs.len()
        invariant
            k <= pairs.len(),
            owing == debts(pairs@),
            all == expenses.deep_view(),
            in_pair_order(owing),
            forall|m: int|
                0 <= m < owing.len() ==> i128::MIN < (#[trigger] owing[m]).amount && owing[m].payer
                    != owing[m].receiver,
            forall|debtor: Seq<char>, creditor: Seq<char>|
                pair_net(owing, debtor, creditor) == net_owed(all, debtor, creditor),
            exchanges.deep_view() == settled(owing.take(k as int)),
        decreases pairs.len() - k,
    {
        let entry = &pairs[k];
        proof {
            assert(owing.take(k + 1).drop_last() =~= owing.take(k as int));
            assert(owing.take(k + 1).last() == entry.as_debt());
            assert(i128::MIN < owing[k as int].amount);
        }
        let ghost before = exchanges.deep_view();
        if entry.balance > 0 {
            exchanges.push(
                Exchange {
                    payer: entry.pair.person2.clone(),
                    receiver: entry.pair.person1.clone(),
                    amount: entry.balance,
                },
            );
            assert(exchanges.deep_view() =~= before.push(entry.as_debt().settled()));
        } else if entry.balance < 0 {
            exchanges.push(
                Exchange {
                    payer: entry.pair.person1.clone(),
                    receiver: entry.pair.person2.clone(),
                    amount: -entry.balance,
                },
            );
            assert(exchanges.deep_view() =~= before.push(entry.as_debt().settled()));
        }
        k = k + 1;
    }
    proof {
        assert(owing.take(k as int) =~= owing);
        lemma_settled(owing);
        assert forall|who: Seq<char>|
            flow(exchanges.deep_view(), who) == net_balance(all, who) by {
            lemma_netting_flow(all, exchanges.deep_view(), who);
        }
    }
    exchanges
}

} // verus!
