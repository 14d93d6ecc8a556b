//! Sums over a list of participants, and the counting arguments that relate
//! what is summed expense by expense to what is summed person by person.
use crate::schemas::ExpenseView;
use vstd::prelude::*;

verus! {

/// The sum of `term` over `names`.
pub open spec fn sum_over(names: Seq<Seq<char>>, term: spec_fn(Seq<char>) -> int) -> int
    decreases names.len(),
{
    if names.len() == 0 {
        0
    } else {
        sum_over(names.drop_last(), term) + term(names.last())
    }
}

/// Every name of `part` is among `names`.
pub open spec fn covers(names: Seq<Seq<char>>, part: Seq<Seq<char>>) -> bool {
    forall|k: int| 0 <= k < part.len() ==> names.contains(#[trigger] part[k])
}

/// A sum of sums is the sum of the sums.
pub proof fn lemma_sum_add(
    names: Seq<Seq<char>>,
    total: spec_fn(Seq<char>) -> int,
    left: spec_fn(Seq<char>) -> int,
    right: spec_fn(Seq<char>) -> int,
)
    requires
        forall|q: Seq<char>| #[trigger] total(q) == left(q) + right(q),
    ensures
        sum_over(names, total) == sum_over(names, left) + sum_over(names, right),
    decreases names.len(),
{
    if names.len() > 0 {
        lemma_sum_add(names.drop_last(), total, left, right);
    }
}

/// Terms that agree everywhere have the same sum.
pub proof fn lemma_sum_same(
    names: Seq<Seq<char>>,
    left: spec_fn(Seq<char>) -> int,
    right: spec_fn(Seq<char>) -> int,
)
    requires
        forall|q: Seq<char>| #[trigger] left(q) == right(q),
    ensures
        sum_over(names, left) == sum_over(names, right),
    decreases names.len(),
{
    if names.len() > 0 {
        lemma_sum_same(names.drop_last(), left, right);
    }
}

/// A term that is `value` at `who` and zero elsewhere sums to `value` over a
/// list that names `who` once, and to zero over one that does not name them.
pub proof fn lemma_sum_single(
    names: Seq<Seq<char>>,
    term: spec_fn(Seq<char>) -> int,
    who: Seq<char>,
    value: int,
)
    requires
        names.no_duplicates(),
        forall|q: Seq<char>| #[trigger] term(q) == if q == who {
            value
        } else {
            0
        },
    ensures
        sum_over(names, term) == if names.contains(who) {
            value
        } else {
            0
        },
    decreases names.len(),
{
    if names.len() > 0 {
        let front = names.drop_last();
        lemma_sum_single(front, term, who, value);
        if front.contains(who) {
            let k = choose|k: int| 0 <= k < front.len() && front[k] == who;
            assert(names[k] == who);
            assert(names[names.len() - 1] != who);
        } else if names.last() == who {
            assert(names[names.len() - 1] == who);
        } else if names.contains(who) {
            let k = choose|k: int| 0 <= k < names.len() && names[k] == who;
            assert(front[k] == who);
        }
    }
}

/// Over a list that names every holder of the first `slots` slots once, what
/// each is charged for them sums to what those slots are charged together.
pub proof fn lemma_sum_charges(
    names: Seq<Seq<char>>,
    term: spec_fn(Seq<char>) -> int,
    e: ExpenseView,
    slots: int,
)
    requires
        names.no_duplicates(),
        0 <= slots <= e.receivers.len(),
        covers(names, e.receivers),
        forall|q: Seq<char>| #[trigger] term(q) == e.charged_to(slots, q),
    ensures
        sum_over(names, term) == e.charged(slots),
    decreases slots,
{
    if slots == 0 {
        lemma_sum_same(names, term, |q: Seq<char>| 0int);
        lemma_sum_zero(names);
    } else {
        let last = e.receivers[slots - 1];
        let before = |q: Seq<char>| e.charged_to(slots - 1, q);
        let added = |q: Seq<char>|
            if q == last {
                e.charge(slots - 1)
            } else {
                0int
            };
        assert forall|q: Seq<char>| #[trigger] term(q) == before(q) + added(q) by {}
        assert(names.contains(e.receivers[slots - 1]));
        lemma_sum_add(names, term, before, added);
        lemma_sum_charges(names, before, e, slots - 1);
        lemma_sum_single(names, added, last, e.charge(slots - 1));
    }
}

/// Nothing sums to nothing.
pub proof fn lemma_sum_zero(names: Seq<Seq<char>>)
    ensures
        sum_over(names, |q: Seq<char>| 0int) == 0,
    decreases names.len(),
{
    if names.len() > 0 {
        lemma_sum_zero(names.drop_last());
    }
}

} // verus!
