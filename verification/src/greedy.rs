//! Greedy settlement: the largest debtor pays the largest creditor, again and
//! again, until everybody is settled.
//!
//! Amounts are whole minor units, so what remains of an amount after a
//! payment is exact and needs no rounding.
use crate::exchange::flow;
use crate::exchange::total_balance;
use crate::exchange::Exchange;
use crate::exchange::ExchangeView;
use crate::exchange::PersonBalance;
use crate::exchange::PersonBalanceView;
use vstd::prelude::*;

verus! {

/// No balance in the list is negative.
pub open spec fn all_nonnegative(balances: Seq<PersonBalanceView>) -> bool {
    forall|k: int| 0 <= k < balances.len() ==> (#[trigger] balances[k]).balance >= 0
}

/// Every balance in the list is positive.
pub open spec fn all_positive(balances: Seq<PersonBalanceView>) -> bool {
    forall|k: int| 0 <= k < balances.len() ==> (#[trigger] balances[k]).balance > 0
}

/// The balances are in ascending order.
pub open spec fn ascending(balances: Seq<PersonBalanceView>) -> bool {
    forall|i: int, j: int|
        0 <= i < j < balances.len() ==> (#[trigger] balances[i]).balance <= (
        #[trigger] balances[j]).balance
}

/// The ascending list `sorted` with `entry` put in behind every entry that is
/// not larger.
pub open spec fn inserted(sorted: Seq<PersonBalanceView>, entry: PersonBalanceView) -> Seq<
    PersonBalanceView,
>
    decreases sorted.len(),
{
    if sorted.len() == 0 || sorted.last().balance <= entry.balance {
        sorted.push(entry)
    } else {
        inserted(sorted.drop_last(), entry).push(sorted.last())
    }
}

/// `balances` in ascending order, entries of equal balance in the order in
/// which they stood.
pub open spec fn sorted_by_balance(balances: Seq<PersonBalanceView>) -> Seq<PersonBalanceView>
    decreases balances.len(),
{
    if balances.len() == 0 {
        Seq::empty()
    } else {
        inserted(sorted_by_balance(balances.drop_last()), balances.last())
    }
}

/// What the entries of `who` in `balances` add up to.
pub open spec fn held(balances: Seq<PersonBalanceView>, who: Seq<char>) -> int
    decreases balances.len(),
{
    if balances.len() == 0 {
        0
    } else {
        held(balances.drop_last(), who) + if balances.last().id == who {
            balances.last().balance
        } else {
            0
        }
    }
}

/// The payments of the greedy settlement. The last debtor and the last
/// creditor of the lists are matched: the debtor pays the creditor the
/// smaller of their two amounts, whoever is thereby settled leaves the list,
/// and the other stays at the end of theirs with what remains. This repeats
/// until one of the lists is empty: which, where the amounts are positive
/// and the debtors owe together what the creditors are owed, is when both
/// are.
pub open spec fn greedy_plan(
    debtors: Seq<PersonBalanceView>,
    creditors: Seq<PersonBalanceView>,
) -> Seq<ExchangeView>
    decreases debtors.len() + creditors.len(),
{
    if debtors.len() == 0 || creditors.len() == 0 {
        Seq::empty()
    } else {
        let d = debtors.last();
        let c = creditors.last();
        if c.balance > d.balance {
            seq![ExchangeView { payer: d.id, receiver: c.id, amount: d.balance }] + greedy_plan(
                debtors.drop_last(),
                creditors.drop_last().push(
                    PersonBalanceView { id: c.id, balance: c.balance - d.balance },
                ),
            )
        } else if c.balance < d.balance {
            seq![ExchangeView { payer: d.id, receiver: c.id, amount: c.balance }] + greedy_plan(
                debtors.drop_last().push(
                    PersonBalanceView { id: d.id, balance: d.balance - c.balance },
                ),
                creditors.drop_last(),
            )
        } else {
            seq![ExchangeView { payer: d.id, receiver: c.id, amount: d.balance }] + greedy_plan(
                debtors.drop_last(),
                creditors.drop_last(),
            )
        }
    }
}

/// Putting an entry in keeps the list ascending, adds exactly that entry, and
/// keeps what every participant holds otherwise.
pub proof fn lemma_inserted(sorted: Seq<PersonBalanceView>, entry: PersonBalanceView)
    ensures
        inserted(sorted, entry).len() == sorted.len() + 1,
        inserted(sorted, entry).to_multiset() == sorted.to_multiset().insert(entry),
        ascending(sorted) ==> ascending(inserted(sorted, entry)),
        total_balance(inserted(sorted, entry)) == total_balance(sorted) + entry.balance,
        forall|who: Seq<char>|
            held(inserted(sorted, entry), who) == held(sorted, who) + if entry.id == who {
                entry.balance
            } else {
                0
            },
    decreases sorted.len(),
{
    broadcast use vstd::seq_lib::to_multiset_build;

    let result = inserted(sorted, entry);
    if sorted.len() == 0 || sorted.last().balance <= entry.balance {
        assert(result.drop_last() =~= sorted);
        if ascending(sorted) {
            assert forall|i: int, j: int| 0 <= i < j < result.len() implies (
            #[trigger] result[i]).balance <= (#[trigger] result[j]).balance by {
                if j == sorted.len() && i < sorted.len() {
                    assert(sorted[i].balance <= sorted[sorted.len() - 1].balance);
                }
            }
        }
    } else {
        let front = sorted.drop_last();
        let last = sorted.last();
        lemma_inserted(front, entry);
        assert(result.drop_last() =~= inserted(front, entry));
        assert(front.push(last) =~= sorted);
        assert(result.to_multiset() =~= sorted.to_multiset().insert(entry));
        assert forall|who: Seq<char>|
            held(result, who) == held(sorted, who) + if entry.id == who {
                entry.balance
            } else {
                0
            } by {
            assert(held(inserted(front, entry), who) == held(front, who) + if entry.id == who {
                entry.balance
            } else {
                0
            });
        }
        if ascending(sorted) {
            assert forall|i: int, j: int| 0 <= i < j < front.len() implies (
            #[trigger] front[i]).balance <= (#[trigger] front[j]).balance by {
                assert(sorted[i].balance <= sorted[j].balance);
            }
            let inner = inserted(front, entry);
            assert forall|i: int, j: int| 0 <= i < j < result.len() implies (
            #[trigger] result[i]).balance <= (#[trigger] result[j]).balance by {
                if j < inner.len() {
                    assert(inner[i].balance <= inner[j].balance);
                } else {
                    lemma_inserted_members(front, entry, i);
                    if inner[i] != entry {
                        let m = choose|m: int| 0 <= m < front.len() && front[m] == inner[i];
                        assert(sorted[m].balance <= sorted[sorted.len() - 1].balance);
                    }
                }
            }
        }
    }
}

/// Every entry of the list with `entry` put in is `entry` or was in the list.
proof fn lemma_inserted_members(sorted: Seq<PersonBalanceView>, entry: PersonBalanceView, k: int)
    requires
        0 <= k < inserted(sorted, entry).len(),
    ensures
        inserted(sorted, entry)[k] == entry || exists|m: int|
            0 <= m < sorted.len() && sorted[m] == inserted(sorted, entry)[k],
    decreases sorted.len(),
{
    let result = inserted(sorted, entry);
    if sorted.len() == 0 || sorted.last().balance <= entry.balance {
        if k < sorted.len() {
            assert(sorted[k] == result[k]);
        }
    } else {
        let front = sorted.drop_last();
        let inner = inserted(front, entry);
        if k < inner.len() {
            lemma_inserted_members(front, entry, k);
            if inner[k] != entry {
                let m = choose|m: int| 0 <= m < front.len() && front[m] == inner[k];
                assert(sorted[m] == result[k]);
            }
        } else {
            assert(sorted[sorted.len() - 1] == result[k]);
        }
    }
}

/// Sorting rearranges and nothing else: the result is ascending, holds the
/// same entries as often, and so the same total and the same for everybody.
pub proof fn lemma_sorted_by_balance(balances: Seq<PersonBalanceView>)
    ensures
        ascending(sorted_by_balance(balances)),
        sorted_by_balance(balances).len() == balances.len(),
        sorted_by_balance(balances).to_multiset() == balances.to_multiset(),
        total_balance(sorted_by_balance(balances)) == total_balance(balances),
        forall|who: Seq<char>| held(sorted_by_balance(balances), who) == held(balances, who),
        all_nonnegative(balances) ==> all_nonnegative(sorted_by_balance(balances)),
        all_positive(balances) ==> all_positive(sorted_by_balance(balances)),
    decreases balances.len(),
{
    broadcast use vstd::seq_lib::to_multiset_build;

    let result = sorted_by_balance(balances);
    if balances.len() == 0 {
        assert(balances =~= result);
    } else {
        let front = balances.drop_last();
        let last = balances.last();
        lemma_sorted_by_balance(front);
        lemma_inserted(sorted_by_balance(front), last);
        assert(front.push(last) =~= balances);
        assert(balances.to_multiset() =~= front.to_multiset().insert(last));
        assert forall|who: Seq<char>| held(result, who) == held(balances, who) by {
            assert(held(sorted_by_balance(front), who) == held(front, who));
        }
        assert forall|k: int| 0 <= k < result.len() implies (all_nonnegative(balances) ==> (
        #[trigger] result[k]).balance >= 0) && (all_positive(balances) ==> result[k].balance
            > 0) by {
            lemma_inserted_members(sorted_by_balance(front), last, k);
            if all_nonnegative(balances) || all_positive(balances) {
                assert(balances[balances.len() - 1] == last);
                if result[k] != last {
                    let m = choose|m: int|
                        0 <= m < sorted_by_balance(front).len() && sorted_by_balance(front)[m]
                            == result[k];
                    if all_nonnegative(balances) {
                        assert forall|n: int| 0 <= n < front.len() implies (
                        #[trigger] front[n]).balance >= 0 by {
                            assert(balances[n].balance >= 0);
                        }
                    }
                    if all_positive(balances) {
                        assert forall|n: int| 0 <= n < front.len() implies (
                        #[trigger] front[n]).balance > 0 by {
                            assert(balances[n].balance > 0);
                        }
                    }
                }
            }
        }
    }
}

/// The greedy settlement needs at most one payment fewer than there are
/// people to settle, and none where one side is empty.
pub proof fn lemma_greedy_plan_len(
    debtors: Seq<PersonBalanceView>,
    creditors: Seq<PersonBalanceView>,
)
    ensures
        debtors.len() == 0 || creditors.len() == 0 ==> greedy_plan(debtors, creditors).len() == 0,
        debtors.len() > 0 && creditors.len() > 0 ==> 1 <= greedy_plan(debtors, creditors).len()
            <= debtors.len() + creditors.len() - 1,
    decreases debtors.len() + creditors.len(),
{
    if debtors.len() > 0 && creditors.len() > 0 {
        let d = debtors.last();
        let c = creditors.last();
        if c.balance > d.balance {
            lemma_greedy_plan_len(
                debtors.drop_last(),
                creditors.drop_last().push(
                    PersonBalanceView { id: c.id, balance: c.balance - d.balance },
                ),
            );
        } else if c.balance < d.balance {
            lemma_greedy_plan_len(
                debtors.drop_last().push(
                    PersonBalanceView { id: d.id, balance: d.balance - c.balance },
                ),
                creditors.drop_last(),
            );
        } else {
            lemma_greedy_plan_len(debtors.drop_last(), creditors.drop_last());
        }
    }
}

/// Among balances none of which is negative and which add up to nothing,
/// nobody holds anything.
proof fn lemma_nothing_held(balances: Seq<PersonBalanceView>, who: Seq<char>)
    requires
        all_nonnegative(balances),
        total_balance(balances) == 0,
    ensures
        held(balances, who) == 0,
    decreases balances.len(),
{
    if balances.len() > 0 {
        let front = balances.drop_last();
        assert(balances[balances.len() - 1].balance >= 0);
        assert forall|k: int| 0 <= k < front.len() implies (#[trigger] front[k]).balance >= 0 by {
            assert(balances[k].balance >= 0);
        }
        lemma_total_nonnegative(front);
        lemma_nothing_held(front, who);
    }
}

/// Balances none of which is negative add up to nothing negative.
proof fn lemma_total_nonnegative(balances: Seq<PersonBalanceView>)
    requires
        all_nonnegative(balances),
    ensures
        total_balance(balances) >= 0,
    decreases balances.len(),
{
    if balances.len() > 0 {
        let front = balances.drop_last();
        assert(balances[balances.len() - 1].balance >= 0);
        assert forall|k: int| 0 <= k < front.len() implies (#[trigger] front[k]).balance >= 0 by {
            assert(balances[k].balance >= 0);
        }
        lemma_total_nonnegative(front);
    }
}

/// What one list of payments followed by another brings a participant is what
/// the two bring them separately.
pub proof fn lemma_flow_concat(first: Seq<ExchangeView>, second: Seq<ExchangeView>, who: Seq<char>)
    ensures
        flow(first + second, who) == flow(first, who) + flow(second, who),
    decreases second.len(),
{
    if second.len() == 0 {
        assert(first + second =~= first);
    } else {
        assert((first + second).drop_last() =~= first + second.drop_last());
        lemma_flow_concat(first, second.drop_last(), who);
    }
}

/// Where debtors and creditors hold the same total and no amount is
/// negative, the greedy settlement settles everybody: what its payments bring
/// a participant is what they held as a creditor less what they held as a
/// debtor.
pub proof fn lemma_greedy_plan_settles(
    debtors: Seq<PersonBalanceView>,
    creditors: Seq<PersonBalanceView>,
    who: Seq<char>,
)
    requires
        all_nonnegative(debtors),
        all_nonnegative(creditors),
        total_balance(debtors) == total_balance(creditors),
    ensures
        flow(greedy_plan(debtors, creditors), who) == held(creditors, who) - held(debtors, who),
    decreases debtors.len() + creditors.len(),
{
    if debtors.len() == 0 || creditors.len() == 0 {
        lemma_total_nonnegative(debtors);
        lemma_total_nonnegative(creditors);
        lemma_nothing_held(debtors, who);
        lemma_nothing_held(creditors, who);
    } else {
        let d = debtors.last();
        let c = creditors.last();
        let rest_d = debtors.drop_last();
        let rest_c = creditors.drop_last();
        assert(debtors[debtors.len() - 1].balance >= 0);
        assert(creditors[creditors.len() - 1].balance >= 0);
        assert forall|k: int| 0 <= k < rest_d.len() implies (#[trigger] rest_d[k]).balance >= 0 by {
            assert(debtors[k].balance >= 0);
        }
        assert forall|k: int| 0 <= k < rest_c.len() implies (#[trigger] rest_c[k]).balance >= 0 by {
            assert(creditors[k].balance >= 0);
        }
        let next_d = if c.balance < d.balance {
            rest_d.push(PersonBalanceView { id: d.id, balance: d.balance - c.balance })
        } else {
            rest_d
        };
        let next_c = if c.balance > d.balance {
            rest_c.push(PersonBalanceView { id: c.id, balance: c.balance - d.balance })
        } else {
            rest_c
        };
        let paid = if c.balance < d.balance {
            c.balance
        } else {
            d.balance
        };
        let first = seq![ExchangeView { payer: d.id, receiver: c.id, amount: paid }];
        if c.balance < d.balance {
            assert(next_d.drop_last() =~= rest_d);
        }
        if c.balance > d.balance {
            assert(next_c.drop_last() =~= rest_c);
        }
        assert(all_nonnegative(next_d));
        assert(all_nonnegative(next_c));
        lemma_greedy_plan_settles(next_d, next_c, who);
        lemma_flow_concat(first, greedy_plan(next_d, next_c), who);
        assert(first.drop_last() =~= Seq::<ExchangeView>::empty());
        assert(flow(Seq::<ExchangeView>::empty(), who) == 0);
        assert(flow(first, who) == first[0].gain_of(who));
    }
}

/// Where every amount is positive, so is every payment of the greedy
/// settlement, and each goes from a debtor to a creditor.
pub proof fn lemma_greedy_plan_proper(
    debtors: Seq<PersonBalanceView>,
    creditors: Seq<PersonBalanceView>,
    k: int,
)
    requires
        all_positive(debtors),
        all_positive(creditors),
        0 <= k < greedy_plan(debtors, creditors).len(),
    ensures
        greedy_plan(debtors, creditors)[k].amount > 0,
        exists|m: int|
            0 <= m < debtors.len() && (#[trigger] debtors[m]).id == greedy_plan(
                debtors,
                creditors,
            )[k].payer,
        exists|m: int|
            0 <= m < creditors.len() && (#[trigger] creditors[m]).id == greedy_plan(
                debtors,
                creditors,
            )[k].receiver,
    decreases debtors.len() + creditors.len(),
{
    let d = debtors.last();
    let c = creditors.last();
    let rest_d = debtors.drop_last();
    let rest_c = creditors.drop_last();
    assert(debtors[debtors.len() - 1].balance > 0);
    assert(creditors[creditors.len() - 1].balance > 0);
    if k > 0 {
        assert forall|n: int| 0 <= n < rest_d.len() implies (#[trigger] rest_d[n]).balance > 0 by {
            assert(debtors[n].balance > 0);
        }
        assert forall|n: int| 0 <= n < rest_c.len() implies (#[trigger] rest_c[n]).balance > 0 by {
            assert(creditors[n].balance > 0);
        }
        let next_d = if c.balance < d.balance {
            rest_d.push(PersonBalanceView { id: d.id, balance: d.balance - c.balance })
        } else {
            rest_d
        };
        let next_c = if c.balance > d.balance {
            rest_c.push(PersonBalanceView { id: c.id, balance: c.balance - d.balance })
        } else {
            rest_c
        };
        assert(all_positive(next_d));
        assert(all_positive(next_c));
        lemma_greedy_plan_proper(next_d, next_c, k - 1);
        let later = greedy_plan(next_d, next_c)[k - 1];
        assert(greedy_plan(debtors, creditors)[k] == later);
        let m = choose|m: int| 0 <= m < next_d.len() && (#[trigger] next_d[m]).id == later.payer;
        if m < rest_d.len() {
            assert(debtors[m].id == later.payer);
        }
        let n = choose|n: int| 0 <= n < next_c.len() && (#[trigger] next_c[n]).id == later.receiver;
        if n < rest_c.len() {
            assert(creditors[n].id == later.receiver);
        }
    }
}

/// Positive balances are not negative.
proof fn lemma_all_positive(balances: Seq<PersonBalanceView>)
    requires
        all_positive(balances),
    ensures
        all_nonnegative(balances),
{
    assert forall|k: int| 0 <= k < balances.len() implies (#[trigger] balances[k]).balance >= 0 by {
        assert(balances[k].balance > 0);
    }
}

/// Of two lists of positive amounts with the same total neither is empty
/// unless both are.
proof fn lemma_settled_together(debtors: Seq<PersonBalanceView>, creditors: Seq<PersonBalanceView>)
    requires
        all_positive(debtors),
        all_positive(creditors),
        total_balance(debtors) == total_balance(creditors),
    ensures
        debtors.len() == 0 <==> creditors.len() == 0,
{
    if debtors.len() > 0 {
        assert(debtors[debtors.len() - 1].balance > 0);
        assert forall|k: int| 0 <= k < debtors.drop_last().len() implies (
        #[trigger] debtors.drop_last()[k]).balance >= 0 by {
            assert(debtors[k].balance > 0);
        }
        lemma_total_nonnegative(debtors.drop_last());
    }
    if creditors.len() > 0 {
        assert(creditors[creditors.len() - 1].balance > 0);
        assert forall|k: int| 0 <= k < creditors.drop_last().len() implies (
        #[trigger] creditors.drop_last()[k]).balance >= 0 by {
            assert(creditors[k].balance > 0);
        }
        lemma_total_nonnegative(creditors.drop_last());
    }
}

/// Sorts `list` in ascending order of balance, keeping entries of equal
/// balance in the order in which they stand.
fn sort_by_balance(list: Vec<PersonBalance>) -> (sorted: Vec<PersonBalance>)
    ensures
        sorted.deep_view() == sorted_by_balance(list.deep_view()),
{
    let mut sorted: Vec<PersonBalance> = Vec::new();
    let mut i: usize = 0;
    assert(list.deep_view().take(0) =~= Seq::<PersonBalanceView>::empty());
    while i < list.len()
        invariant
            i <= list.len(),
            sorted.deep_view() == sorted_by_balance(list.deep_view().take(i as int)),
        decreases list.len() - i,
    {
        let entry = PersonBalance { id: list[i].id.clone(), balance: list[i].balance };
        let ghost before = sorted.deep_view();
        proof {
            lemma_sorted_by_balance(list.deep_view().take(i as int));
        }
        let mut at: usize = sorted.len();
        proof {
            assert(before.take(at as int) =~= before);
            assert(inserted(before, entry@) + before.skip(at as int) =~= inserted(before, entry@));
        }
        while at > 0 && sorted[at - 1].balance > entry.balance
            invariant
                at <= sorted.len(),
                sorted.deep_view() == before,
                inserted(before, entry@) == inserted(before.take(at as int), entry@) + before.skip(
                    at as int,
                ),
            decreases at,
        {
            proof {
                let head = before.take(at as int);
                assert(head.drop_last() =~= before.take(at - 1));
                assert(inserted(head.drop_last(), entry@).push(head.last()) + before.skip(
                    at as int,
                ) =~= inserted(head.drop_last(), entry@) + before.skip(at - 1));
            }
            at = at - 1;
        }
        sorted.insert(at, entry);
        proof {
            let head = before.take(at as int);
            assert(sorted.deep_view() =~= head.push(entry@) + before.skip(at as int));
            assert(list.deep_view().take(i + 1).drop_last() =~= list.deep_view().take(i as int));
        }
        i = i + 1;
    }
    assert(list.deep_view().take(i as int) =~= list.deep_view());
    sorted
}

/// Settles debtors against creditors greedily. Both lists are put in
/// ascending order of amount; then the last debtor pays the last creditor the
/// smaller of their two amounts, whoever is thereby settled leaves, and the
/// other stays with what remains, until both lists are empty. Every amount
/// is positive, and the debtors owe together what the creditors are owed
/// together: so the two lists become empty together, and everybody is
/// settled.
pub fn get_simplified_balances(payers: Vec<PersonBalance>, receivers: Vec<PersonBalance>) -> (exchanges:
    Vec<Exchange>)
    requires
        all_positive(payers.deep_view()),
        all_positive(receivers.deep_view()),
        total_balance(payers.deep_view()) == total_balance(receivers.deep_view()),
    ensures
        exchanges.deep_view() == greedy_plan(
            sorted_by_balance(payers.deep_view()),
            sorted_by_balance(receivers.deep_view()),
        ),
        forall|who: Seq<char>|
            flow(exchanges.deep_view(), who) == held(receivers.deep_view(), who) - held(
                payers.deep_view(),
                who,
            ),
        forall|k: int| 0 <= k < exchanges.len() ==> (#[trigger] exchanges.deep_view()[k]).amount > 0,
        payers.len() == 0 || receivers.len() == 0 ==> exchanges.len() == 0,
        payers.len() > 0 && receivers.len() > 0 ==> 1 <= exchanges.len() <= payers.len()
            + receivers.len() - 1,
{
    let ghost plan = greedy_plan(
        sorted_by_balance(payers.deep_view()),
        sorted_by_balance(receivers.deep_view()),
    );
    proof {
        lemma_sorted_by_balance(payers.deep_view());
        lemma_sorted_by_balance(receivers.deep_view());
        lemma_greedy_plan_len(
            sorted_by_balance(payers.deep_view()),
            sorted_by_balance(receivers.deep_view()),
        );
        lemma_all_positive(sorted_by_balance(payers.deep_view()));
        lemma_all_positive(sorted_by_balance(receivers.deep_view()));
        assert forall|who: Seq<char>|
            flow(plan, who) == held(receivers.deep_view(), who) - held(payers.deep_view(), who) by {
            lemma_greedy_plan_settles(
                sorted_by_balance(payers.deep_view()),
                sorted_by_balance(receivers.deep_view()),
                who,
            );
        }
        assert forall|k: int| 0 <= k < plan.len() implies (#[trigger] plan[k]).amount > 0 by {
            lemma_greedy_plan_proper(
                sorted_by_balance(payers.deep_view()),
                sorted_by_balance(receivers.deep_view()),
                k,
            );
        }
    }
    let mut payers = sort_by_balance(payers);
    let mut receivers = sort_by_balance(receivers);
    let mut exchanges: Vec<Exchange> = Vec::new();
    assert(exchanges.deep_view() + plan =~= plan);
    while payers.len() > 0 || receivers.len() > 0
        invariant
            all_positive(payers.deep_view()),
            all_positive(receivers.deep_view()),
            total_balance(payers.deep_view()) == total_balance(receivers.deep_view()),
            exchanges.deep_view() + greedy_plan(payers.deep_view(), receivers.deep_view()) == plan,
        decreases payers.len() + receivers.len(),
    {
        let ghost debtors = payers.deep_view();
        let ghost creditors = receivers.deep_view();
        let ghost done = exchanges.deep_view();
        proof {
            lemma_settled_together(debtors, creditors);
        }
        let p = payers.len() - 1;
        let r = receivers.len() - 1;
        let owed = payers[p].balance;
        let due = receivers[r].balance;
        assert(debtors[p as int].balance == owed && creditors[r as int].balance == due);
        let payer = payers[p].id.clone();
        let receiver = receivers[r].id.clone();
        if due > owed {
            exchanges.push(Exchange { payer, receiver, amount: owed });
            receivers[r].balance = due - owed;
            payers.pop();
            proof {
                let next = creditors.drop_last().push(
                    PersonBalanceView { id: creditors.last().id, balance: due - owed },
                );
                assert(receivers.deep_view() =~= next);
                assert(next.drop_last() =~= creditors.drop_last());
                assert(payers.deep_view() =~= debtors.drop_last());
            }
        } else if due < owed {
            exchanges.push(Exchange { payer, receiver, amount: due });
            payers[p].balance = owed - due;
            receivers.pop();
            proof {
                let next = debtors.drop_last().push(
                    PersonBalanceView { id: debtors.last().id, balance: owed - due },
                );
                assert(payers.deep_view() =~= next);
                assert(next.drop_last() =~= debtors.drop_last());
                assert(receivers.deep_view() =~= creditors.drop_last());
            }
        } else {
            exchanges.push(Exchange { payer, receiver, amount: owed });
            payers.pop();
            receivers.pop();
            proof {
                assert(payers.deep_view() =~= debtors.drop_last());
                assert(receivers.deep_view() =~= creditors.drop_last());
            }
        }
        proof {
            let first = greedy_plan(debtors, creditors).first();
            assert(exchanges.deep_view() =~= done.push(first));
            assert(done.push(first) + greedy_plan(payers.deep_view(), receivers.deep_view())
                =~= done + greedy_plan(debtors, creditors));
        }
    }
    proof {
        assert(exchanges.deep_view() + greedy_plan(payers.deep_view(), receivers.deep_view())
            =~= exchanges.deep_view());
    }
    exchanges
}

} // verus!
