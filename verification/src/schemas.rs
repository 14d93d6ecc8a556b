//! The data the settlement engine works on: expenses, groups, and the
//! mathematical quantities that every other module states its contracts over.
//!
//! Money is an exact integer count of the currency's minor unit (cents, say).
//! An amount is charged to the receiver slots of its expense in whole units
//! and in full: every slot is charged the integer quotient of the amount by
//! the number of slots, and the units that the division leaves over are
//! charged one each to the first slots. So the charges of an expense add up
//! to its amount, whatever the amount.
use vstd::prelude::*;

verus! {

/// A participant identifier: an opaque, case-sensitive handle.
pub type UserNick = String;

/// One recorded expense: `payer` advanced `amount` for the benefit of every
/// slot in `receivers`. A participant named twice holds two slots.
#[derive(Debug)]
pub struct Expense {
    pub name: String,
    pub amount: i64,
    pub payer: UserNick,
    pub receivers: Vec<UserNick>,
}

/// A group and the expenses recorded in it.
#[derive(Debug)]
pub struct Group {
    pub id: String,
    pub name: String,
    pub expenses: Vec<Expense>,
}

/// The mathematical value of an [`Expense`].
pub struct ExpenseView {
    pub name: Seq<char>,
    pub amount: int,
    pub payer: Seq<char>,
    pub receivers: Seq<Seq<char>>,
}

/// The mathematical value of a [`Group`].
pub struct GroupView {
    pub id: Seq<char>,
    pub name: Seq<char>,
    pub expenses: Seq<ExpenseView>,
}

impl DeepView for Expense {
    type V = ExpenseView;

    open spec fn deep_view(&self) -> ExpenseView {
        ExpenseView {
            name: self.name@,
            amount: self.amount as int,
            payer: self.payer@,
            receivers: self.receivers.deep_view(),
        }
    }
}

impl View for Expense {
    type V = ExpenseView;

    open spec fn view(&self) -> ExpenseView {
        self.deep_view()
    }
}

impl DeepView for Group {
    type V = GroupView;

    open spec fn deep_view(&self) -> GroupView {
        GroupView { id: self.id@, name: self.name@, expenses: self.expenses.deep_view() }
    }
}

impl View for Group {
    type V = GroupView;

    open spec fn view(&self) -> GroupView {
        self.deep_view()
    }
}

/// Rust's integer quotient, rounded toward zero, on mathematical integers.
pub open spec fn quotient_toward_zero(a: int, n: int) -> int
    recommends
        n > 0,
{
    if a >= 0 {
        a / n
    } else {
        -((-a) / n)
    }
}

impl ExpenseView {
    /// The integer quotient of the amount by the number of receiver slots.
    pub open spec fn share(self) -> int {
        quotient_toward_zero(self.amount, self.receivers.len() as int)
    }

    /// The units that the division into shares leaves over; they have the
    /// sign of the amount.
    pub open spec fn left_over(self) -> int {
        self.amount - self.share() * self.receivers.len()
    }

    /// What receiver slot `slot` is charged: the share, and one of the
    /// units left over while there are any. The first slots take them.
    pub open spec fn charge(self, slot: int) -> int {
        self.share() + if slot < self.left_over() {
            1int
        } else if slot < -self.left_over() {
            -1int
        } else {
            0int
        }
    }

    /// What the first `slots` receiver slots are charged together.
    pub open spec fn charged(self, slots: int) -> int
        decreases slots,
    {
        if slots <= 0 {
            0
        } else {
            self.charged(slots - 1) + self.charge(slots - 1)
        }
    }

    /// What `who` is charged for those of the first `slots` receiver slots
    /// that `who` holds.
    pub open spec fn charged_to(self, slots: int, who: Seq<char>) -> int
        decreases slots,
    {
        if slots <= 0 {
            0
        } else {
            self.charged_to(slots - 1, who) + if self.receivers[slots - 1] == who {
                self.charge(slots - 1)
            } else {
                0
            }
        }
    }

    /// The amount fits the machine type that expenses are stored in.
    pub open spec fn in_range(self) -> bool {
        i64::MIN <= self.amount <= i64::MAX
    }

    /// The change this expense makes to the net balance of `who`: the whole
    /// amount if `who` paid, less what `who` is charged for the slots that
    /// `who` holds.
    pub open spec fn effect_on(self, who: Seq<char>) -> int {
        (if self.payer == who {
            self.amount
        } else {
            0
        }) - self.charged_to(self.receivers.len() as int, who)
    }

    /// `who` paid this expense or holds one of its slots.
    pub open spec fn involves(self, who: Seq<char>) -> bool {
        self.payer == who || self.receivers.contains(who)
    }
}

/// Every expense has at least one receiver slot, so that every share is defined.
pub open spec fn all_have_receivers(expenses: Seq<ExpenseView>) -> bool {
    forall|i: int| 0 <= i < expenses.len() ==> (#[trigger] expenses[i]).receivers.len() > 0
}

/// Every amount fits the machine type that expenses are stored in.
pub open spec fn all_in_range(expenses: Seq<ExpenseView>) -> bool {
    forall|i: int| 0 <= i < expenses.len() ==> (#[trigger] expenses[i]).in_range()
}

/// `who` is the payer or a receiver of at least one expense.
pub open spec fn is_participant(expenses: Seq<ExpenseView>, who: Seq<char>) -> bool {
    exists|i: int| 0 <= i < expenses.len() && (#[trigger] expenses[i]).involves(who)
}

/// The net amount owed to `who` over `expenses`: positive for a creditor,
/// negative for a debtor.
pub open spec fn net_balance(expenses: Seq<ExpenseView>, who: Seq<char>) -> int
    decreases expenses.len(),
{
    if expenses.len() == 0 {
        0
    } else {
        net_balance(expenses.drop_last(), who) + expenses.last().effect_on(who)
    }
}

/// The largest magnitude an expense's amount can have.
pub open spec fn amount_limit() -> int {
    0x8000_0000_0000_0000
}

/// The share has the sign of the amount, and fewer units are left over than
/// there are slots.
pub proof fn lemma_left_over(e: ExpenseView)
    requires
        e.receivers.len() > 0,
    ensures
        e.amount >= 0 ==> 0 <= e.share() && 0 <= e.left_over() < e.receivers.len(),
        e.amount < 0 ==> e.share() <= 0 && -e.receivers.len() < e.left_over() <= 0,
{
    let n = e.receivers.len() as int;
    let a = e.amount;
    if a >= 0 {
        let q = a / n;
        assert(0 <= q && 0 <= a - q * n < n) by (nonlinear_arith)
            requires
                q == a / n,
                a >= 0,
                n > 0,
        ;
    } else {
        let q = (-a) / n;
        assert(0 <= q && 0 <= (-a) - q * n < n) by (nonlinear_arith)
            requires
                q == (-a) / n,
                a < 0,
                n > 0,
        ;
        assert((-q) * n == -(q * n)) by (nonlinear_arith);
    }
}

/// All slots together are charged the amount, and no slots together more
/// than that, nor against its sign.
pub proof fn lemma_charged(e: ExpenseView, slots: int)
    requires
        e.receivers.len() > 0,
        0 <= slots <= e.receivers.len(),
    ensures
        e.charged(e.receivers.len() as int) == e.amount,
        e.amount >= 0 ==> 0 <= e.charged(slots) <= e.amount,
        e.amount < 0 ==> e.amount <= e.charged(slots) <= 0,
{
    let n = e.receivers.len() as int;
    let q = e.share();
    lemma_left_over(e);
    lemma_charged_all(e, slots);
    lemma_charged_all(e, n);
    if e.amount >= 0 {
        assert(0 <= q * slots <= q * n) by (nonlinear_arith)
            requires
                q >= 0,
                0 <= slots <= n,
        ;
    } else {
        assert(q * n <= q * slots <= 0) by (nonlinear_arith)
            requires
                q <= 0,
                0 <= slots <= n,
        ;
    }
}

/// The first slots are charged their shares and as many of the units left
/// over as there are.
proof fn lemma_charged_all(e: ExpenseView, slots: int)
    requires
        e.receivers.len() > 0,
        0 <= slots <= e.receivers.len(),
    ensures
        e.charged(slots) == e.share() * slots + if e.amount >= 0 {
            if slots < e.left_over() {
                slots
            } else {
                e.left_over()
            }
        } else {
            if slots < -e.left_over() {
                -slots
            } else {
                e.left_over()
            }
        },
    decreases slots,
{
    let q = e.share();
    lemma_left_over(e);
    if slots > 0 {
        lemma_charged_all(e, slots - 1);
        assert(q * slots == q * (slots - 1) + q) by (nonlinear_arith);
    } else {
        assert(q * 0 == 0) by (nonlinear_arith);
    }
}

/// Nobody is charged more than the slots together, nor against the sign of
/// the amount: so nobody is charged more than the amount.
pub proof fn lemma_charged_to(e: ExpenseView, slots: int, who: Seq<char>)
    requires
        e.receivers.len() > 0,
        0 <= slots <= e.receivers.len(),
    ensures
        e.amount >= 0 ==> 0 <= e.charged_to(slots, who) <= e.charged(slots) <= e.amount,
        e.amount < 0 ==> e.amount <= e.charged(slots) <= e.charged_to(slots, who) <= 0,
    decreases slots,
{
    lemma_left_over(e);
    lemma_charged(e, slots);
    if slots > 0 {
        lemma_charged_to(e, slots - 1, who);
    }
}

/// Whoever holds none of the first slots is charged nothing for them.
pub proof fn lemma_charged_to_nobody(e: ExpenseView, slots: int, who: Seq<char>)
    requires
        0 <= slots <= e.receivers.len(),
        forall|j: int| 0 <= j < slots ==> e.receivers[j] != who,
    ensures
        e.charged_to(slots, who) == 0,
    decreases slots,
{
    if slots > 0 {
        lemma_charged_to_nobody(e, slots - 1, who);
    }
}

/// Divides `a` by the positive `n`, rounding toward zero.
pub fn divide_toward_zero(a: i64, n: usize) -> (q: i64)
    requires
        n > 0,
    ensures
        q == quotient_toward_zero(a as int, n as int),
{
    let wide: i128 = a as i128;
    let count: i128 = n as i128;
    let q: i128 = wide / count;
    q as i64
}

impl Expense {
    /// What receiver slot `slot` is charged.
    pub fn charge(&self, slot: usize) -> (charge: i128)
        requires
            slot < self@.receivers.len(),
        ensures
            charge == self@.charge(slot as int),
    {
        let count: i128 = self.receivers.len() as i128;
        let share: i128 = divide_toward_zero(self.amount, self.receivers.len()) as i128;
        proof {
            lemma_left_over(self@);
        }
        let left_over: i128 = self.amount as i128 - share * count;
        let place: i128 = slot as i128;
        if place < left_over {
            share + 1
        } else if place < -left_over {
            share - 1
        } else {
            share
        }
    }
}

/// Whether every expense of `group` names at least one receiver.
pub fn group_has_receivers(group: &Group) -> (ok: bool)
    ensures
        ok == all_have_receivers(group@.expenses),
{
    let mut i: usize = 0;
    while i < group.expenses.len()
        invariant
            i <= group.expenses.len(),
            forall|k: int| 0 <= k < i ==> (#[trigger] group@.expenses[k]).receivers.len() > 0,
        decreases group.expenses.len() - i,
    {
        if group.expenses[i].receivers.len() == 0 {
            assert(group@.expenses[i as int].receivers.len() == 0);
            return false;
        }
        i = i + 1;
    }
    true
}

/// Whether `user` paid or received any expense of `group`.
pub fn check_if_user_is_in_group(user: &UserNick, group: &Group) -> (found: bool)
    ensures
        found == is_participant(group@.expenses, user@),
{
    let mut i: usize = 0;
    while i < group.expenses.len()
        invariant
            i <= group.expenses.len(),
            forall|k: int| 0 <= k < i ==> !(#[trigger] group@.expenses[k]).involves(user@),
        decreases group.expenses.len() - i,
    {
        let expense = &group.expenses[i];
        assert(expense@ == group@.expenses[i as int]);
        if expense.payer == *user {
            return true;
        }
        let mut j: usize = 0;
        while j < expense.receivers.len()
            invariant
                i < group.expenses.len(),
                expense@ == group@.expenses[i as int],
                j <= expense.receivers.len(),
                forall|k: int| 0 <= k < j ==> expense@.receivers[k] != user@,
            decreases expense.receivers.len() - j,
        {
            if expense.receivers[j] == *user {
                assert(expense@.receivers[j as int] == user@);
                return true;
            }
            j = j + 1;
        }
        i = i + 1;
    }
    false
}

} // verus!
