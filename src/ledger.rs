use vstd::prelude::*;

use crate::order::Address;

verus! {

// Credit balances are kept as a list of entries, at most one per user and
// token.

/// A credit of `amount` of `token` held for `user`.
#[derive(Copy, Clone, Debug, PartialEq, Eq, Structural)]
pub struct BalanceEntry {
    pub user: Address,
    pub token: Address,
    pub amount: i128,
}

/// The credit of `user` in `token` recorded in a list of entries.
pub open spec fn balance_in(s: Seq<BalanceEntry>, user: Address, token: Address) -> int
    decreases s.len(),
{
    if s.len() == 0 {
        0
    } else if s.last().user == user && s.last().token == token {
        s.last().amount as int
    } else {
        balance_in(s.drop_last(), user, token)
    }
}

/// No two entries are for the same user and token, and none is negative.
pub open spec fn balances_ok(s: Seq<BalanceEntry>) -> bool {
    &&& forall|i: int| 0 <= i < s.len() ==> #[trigger] s[i].amount >= 0
    &&& forall|i: int, j: int|
        0 <= i < j < s.len() ==> !(s[i].user == s[j].user && s[i].token == s[j].token)
}

/// The sum of all credits in `token` recorded in a list of entries.
pub open spec fn token_total(s: Seq<BalanceEntry>, token: Address) -> int
    decreases s.len(),
{
    if s.len() == 0 {
        0
    } else {
        token_total(s.drop_last(), token) + (if s.last().token == token { s.last().amount as int } else { 0int })
    }
}

/// Changing one entry changes the total of its token by the change of its
/// amount.
pub(crate) proof fn lemma_token_total_update(s: Seq<BalanceEntry>, i: int, e: BalanceEntry, token: Address)
    requires
        0 <= i < s.len(),
        e.token == s[i].token,
    ensures
        token_total(s.update(i, e), token) == token_total(s, token) + (if e.token == token {
            e.amount - s[i].amount
        } else {
            0int
        }),
    decreases s.len(),
{
    let t = s.update(i, e);
    if i == s.len() - 1 {
        assert(t.drop_last() =~= s.drop_last());
    } else {
        assert(t.drop_last() =~= s.drop_last().update(i, e));
        lemma_token_total_update(s.drop_last(), i, e, token);
    }
}

/// With unique keys, the balance of a key is the amount of its entry.
pub(crate) proof fn lemma_balance_entry(s: Seq<BalanceEntry>, i: int)
    requires
        balances_ok(s),
        0 <= i < s.len(),
    ensures
        balance_in(s, s[i].user, s[i].token) == s[i].amount,
    decreases s.len(),
{
    if i < s.len() - 1 {
        let d = s.drop_last();
        assert(d[i] == s[i]);
        lemma_balance_entry(d, i);
    }
}

/// A key with no entry has balance 0.
pub(crate) proof fn lemma_balance_absent(s: Seq<BalanceEntry>, user: Address, token: Address)
    requires
        forall|i: int| 0 <= i < s.len() ==> !(#[trigger] s[i].user == user && s[i].token == token),
    ensures
        balance_in(s, user, token) == 0,
    decreases s.len(),
{
    if s.len() > 0 {
        let d = s.drop_last();
        assert forall|i: int| 0 <= i < d.len() implies !(#[trigger] d[i].user == user && d[i].token == token) by {
            assert(d[i] == s[i]);
        }
        lemma_balance_absent(d, user, token);
    }
}

/// Changing the amount of one entry changes the balance of its key only.
pub(crate) proof fn lemma_balance_update(s: Seq<BalanceEntry>, i: int, amount: i128, user: Address, token: Address)
    requires
        balances_ok(s),
        0 <= i < s.len(),
    ensures
        balance_in(s.update(i, BalanceEntry { amount, ..s[i] }), user, token) == (if user == s[i].user
            && token == s[i].token {
            amount as int
        } else {
            balance_in(s, user, token)
        }),
    decreases s.len(),
{
    let t = s.update(i, BalanceEntry { amount, ..s[i] });
    if i == s.len() - 1 {
        assert(t.drop_last() =~= s.drop_last());
    } else {
        let d = s.drop_last();
        assert(t.drop_last() =~= d.update(i, BalanceEntry { amount, ..d[i] }));
        lemma_balance_update(d, i, amount, user, token);
        if user == s[i].user && token == s[i].token {
            assert(!(s.last().user == user && s.last().token == token));
        }
    }
}

} // verus!
