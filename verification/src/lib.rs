//! A debt-settlement engine for groups that share expenses.
//!
//! Given the expenses recorded in a group, the engine computes what each
//! participant is owed or owes on balance, and a list of payments that
//! settles the group. Two ways of settling compete: netting the debts of
//! every two participants against each other, and matching the largest
//! debtor with the largest creditor again and again. The shorter list wins.
//!
//! Money is counted in whole minor units of the currency. An amount is
//! charged to the receivers of an expense in whole units and in full: what
//! the division into equal shares leaves over is charged one unit each to
//! the first receiver slots. So the balances of every group add up to zero,
//! and a settlement brings every participant exactly their balance.
//!
//! - [`schemas`]: expenses and groups, and the net balance of a participant.
//! - [`balance`]: the ledger of a group, and one participant's standing in
//!   each of several groups.
//! - [`netting`]: the pairwise netting of expenses.
//! - [`greedy`]: the greedy settlement of debtors against creditors.
//! - [`exchange`]: balances and payments, and the choice between the two
//!   settlements.
//! - [`names`]: the order on participant identifiers.
//! - [`counting`]: sums over participants.
//! - [`auth`]: who is asking, the bot or a participant.
pub mod auth;
pub mod balance;
pub mod counting;
pub mod exchange;
pub mod greedy;
pub mod names;
pub mod netting;
pub mod schemas;
