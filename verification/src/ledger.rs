//! The ledger of balance changes: one signed amount for each address and
//! denom that a transfer touches.

use vstd::prelude::*;
use crate::balance::{
    canonical, coin_total, find_address, lemma_coin_total_update, lemma_recorded_absent,
    lemma_recorded_at, lemma_take_step, recorded, recorded_amount, Balance,
};
use crate::coin::{
    all_nonzero, coin_sum, distinct_denoms, holds, lemma_amount_of_push, lemma_held_is_nonzero,
    Coin,
};

verus! {

/// The change of one address in one denom.
#[derive(Debug)]
pub struct Entry {
    pub address: String,
    pub denom: String,
    pub amount: i128,
}

/// Entry `i` is the one of address `a` and denom `d`.
pub open spec fn key_at(entries: Seq<Entry>, i: int, a: Seq<char>, d: Seq<char>) -> bool {
    0 <= i < entries.len() && entries[i].address@ == a && entries[i].denom@ == d
}

/// No two entries have the same address and denom.
pub open spec fn distinct_keys(entries: Seq<Entry>) -> bool {
    forall|i: int, j: int|
        0 <= i < j < entries.len() ==> !(#[trigger] entries[i].address@ == #[trigger] entries[j].address@
            && entries[i].denom@ == entries[j].denom@)
}

/// The amount entered for address `a` and denom `d`, zero where there is no
/// entry.
pub open spec fn lookup(entries: Seq<Entry>, a: Seq<char>, d: Seq<char>) -> int {
    if exists|i: int| key_at(entries, i, a, d) {
        entries[choose|i: int| key_at(entries, i, a, d)].amount as int
    } else {
        0
    }
}

/// The sum of the amounts entered for denom `d`.
pub open spec fn denom_sum(entries: Seq<Entry>, d: Seq<char>) -> int
    decreases entries.len(),
{
    if entries.len() == 0 {
        0
    } else {
        denom_sum(entries.drop_last(), d) + (if entries.last().denom@ == d {
            entries.last().amount as int
        } else {
            0
        })
    }
}

/// With distinct keys, the entry of a key is the one that `lookup` reads.
pub proof fn lemma_lookup_at(entries: Seq<Entry>, i: int, a: Seq<char>, d: Seq<char>)
    requires
        distinct_keys(entries),
        key_at(entries, i, a, d),
    ensures
        lookup(entries, a, d) == entries[i].amount,
{
    let c = choose|i: int| key_at(entries, i, a, d);
    if c < i {
        assert(!(entries[c].address@ == entries[i].address@ && entries[c].denom@
            == entries[i].denom@));
    } else if i < c {
        assert(!(entries[i].address@ == entries[c].address@ && entries[i].denom@
            == entries[c].denom@));
    }
}

/// Replacing the amount of one entry changes the sum of its denom by the
/// difference and no other sum.
pub proof fn lemma_denom_sum_update(entries: Seq<Entry>, i: int, e: Entry, d: Seq<char>)
    requires
        0 <= i < entries.len(),
        e.denom@ == entries[i].denom@,
    ensures
        denom_sum(entries.update(i, e), d) == denom_sum(entries, d) + (if e.denom@ == d {
            e.amount - entries[i].amount
        } else {
            0
        }),
    decreases entries.len(),
{
    let updated = entries.update(i, e);
    if i == entries.len() - 1 {
        assert(updated.drop_last() =~= entries.drop_last());
    } else {
        lemma_denom_sum_update(entries.drop_last(), i, e, d);
        assert(updated.drop_last() =~= entries.drop_last().update(i, e));
    }
}

/// What the first `i + 1` entries enter for a key: the amount of entry `i`
/// where that has the key, else what the first `i` enter.
pub proof fn lemma_lookup_take_step(entries: Seq<Entry>, i: int, a: Seq<char>, d: Seq<char>)
    requires
        distinct_keys(entries),
        0 <= i < entries.len(),
    ensures
        lookup(entries.take(i + 1), a, d) == (if key_at(entries, i, a, d) {
            entries[i].amount as int
        } else {
            lookup(entries.take(i), a, d)
        }),
        key_at(entries, i, a, d) ==> lookup(entries.take(i), a, d) == 0,
{
    let shorter = entries.take(i);
    let longer = entries.take(i + 1);
    assert(distinct_keys(shorter));
    assert(distinct_keys(longer));
    if key_at(entries, i, a, d) {
        assert(key_at(longer, i, a, d));
        lemma_lookup_at(longer, i, a, d);
        if exists|k: int| key_at(shorter, k, a, d) {
            let k = choose|k: int| key_at(shorter, k, a, d);
            assert(entries[k].address@ == entries[i].address@ && entries[k].denom@
                == entries[i].denom@);
        }
    } else {
        if exists|k: int| key_at(shorter, k, a, d) {
            let k = choose|k: int| key_at(shorter, k, a, d);
            assert(key_at(longer, k, a, d));
            lemma_lookup_at(shorter, k, a, d);
            lemma_lookup_at(longer, k, a, d);
        } else if exists|k: int| key_at(longer, k, a, d) {
            let k = choose|k: int| key_at(longer, k, a, d);
            assert(key_at(shorter, k, a, d));
        }
    }
}

/// Balance changes by address and denom. No key is entered twice.
#[derive(Debug)]
pub struct Ledger {
    entries: Vec<Entry>,
}

impl Ledger {
    /// No address and denom is entered twice.
    pub closed spec fn wf(&self) -> bool {
        distinct_keys(self.entries@)
    }

    /// The change entered for address `a` and denom `d`, zero where there is
    /// none.
    pub closed spec fn get(&self, a: Seq<char>, d: Seq<char>) -> int {
        lookup(self.entries@, a, d)
    }

    /// The sum of the changes entered for denom `d`.
    pub closed spec fn total(&self, d: Seq<char>) -> int {
        denom_sum(self.entries@, d)
    }

    /// Every change is an amount.
    pub proof fn lemma_get_is_amount(&self, a: Seq<char>, d: Seq<char>)
        ensures
            i128::MIN <= self.get(a, d) <= i128::MAX,
    {
    }

    /// The ledger without entries.
    pub fn new() -> (res: Ledger)
        ensures
            res.wf(),
            forall|a: Seq<char>, d: Seq<char>| #[trigger] res.get(a, d) == 0,
            forall|d: Seq<char>| #[trigger] res.total(d) == 0,
    {
        Ledger { entries: Vec::new() }
    }

    /// Adds `amount` to the change of `address` in `denom`.
    pub fn add(&mut self, address: &String, denom: &String, amount: i128)
        requires
            old(self).wf(),
            i128::MIN <= old(self).get(address@, denom@) + amount <= i128::MAX,
        ensures
            final(self).wf(),
            final(self).get(address@, denom@) == old(self).get(address@, denom@) + amount,
            forall|a: Seq<char>, d: Seq<char>|
                a != address@ || d != denom@ ==> #[trigger] final(self).get(a, d) == old(self).get(
                    a,
                    d,
                ),
            forall|d: Seq<char>| #[trigger]
                final(self).total(d) == old(self).total(d) + (if d == denom@ {
                    amount as int
                } else {
                    0
                }),
    {
        let ghost before = self.entries@;
        let mut i: usize = 0;
        while i < self.entries.len()
            invariant
                i <= self.entries.len(),
                self.entries@ == before,
                before == old(self).entries@,
                distinct_keys(before),
                i128::MIN <= lookup(before, address@, denom@) + amount <= i128::MAX,
                forall|k: int| 0 <= k < i ==> !key_at(before, k, address@, denom@),
            decreases self.entries.len() - i,
        {
            if self.entries[i].address == *address && self.entries[i].denom == *denom {
                proof {
                    lemma_lookup_at(before, i as int, address@, denom@);
                }
                self.entries[i].amount = self.entries[i].amount + amount;
                proof {
                    let after = self.entries@;
                    assert(after =~= before.update(i as int, after[i as int]));
                    assert(forall|k: int|
                        0 <= k < before.len() ==> (#[trigger] after[k]).address@
                            == before[k].address@ && after[k].denom@ == before[k].denom@);
                    assert(distinct_keys(after));
                    assert(key_at(after, i as int, address@, denom@));
                    lemma_lookup_at(after, i as int, address@, denom@);
                    assert forall|a: Seq<char>, d: Seq<char>|
                        a != address@ || d != denom@ implies lookup(after, a, d) == lookup(
                        before,
                        a,
                        d,
                    ) by {
                        if exists|k: int| key_at(before, k, a, d) {
                            let k = choose|k: int| key_at(before, k, a, d);
                            assert(key_at(after, k, a, d));
                            lemma_lookup_at(before, k, a, d);
                            lemma_lookup_at(after, k, a, d);
                        } else if exists|k: int| key_at(after, k, a, d) {
                            let k = choose|k: int| key_at(after, k, a, d);
                            assert(key_at(before, k, a, d));
                        }
                    }
                    assert forall|d: Seq<char>|
                        denom_sum(after, d) == denom_sum(before, d) + (if d == denom@ {
                            amount as int
                        } else {
                            0
                        }) by {
                        lemma_denom_sum_update(before, i as int, after[i as int], d);
                    }
                }
                return ;
            }
            i = i + 1;
        }
        self.entries.push(Entry { address: address.clone(), denom: denom.clone(), amount });
        proof {
            let after = self.entries@;
            let last = before.len() as int;
            assert(after.drop_last() =~= before);
            assert(key_at(after, last, address@, denom@));
            assert(distinct_keys(after)) by {
                assert forall|j: int, k: int| 0 <= j < k < after.len() implies !(
                #[trigger] after[j].address@ == #[trigger] after[k].address@ && after[j].denom@
                    == after[k].denom@) by {
                    if k == last {
                        assert(!key_at(before, j, address@, denom@));
                    }
                }
            }
            lemma_lookup_at(after, last, address@, denom@);
            assert forall|a: Seq<char>, d: Seq<char>|
                a != address@ || d != denom@ implies lookup(after, a, d) == lookup(
                before,
                a,
                d,
            ) by {
                if exists|k: int| key_at(before, k, a, d) {
                    let k = choose|k: int| key_at(before, k, a, d);
                    assert(key_at(after, k, a, d));
                    lemma_lookup_at(before, k, a, d);
                    lemma_lookup_at(after, k, a, d);
                } else if exists|k: int| key_at(after, k, a, d) {
                    let k = choose|k: int| key_at(after, k, a, d);
                    assert(key_at(before, k, a, d));
                }
            }
        }
    }

    /// The deduction of address `a` in denom `d` is more than `balances` has
    /// on record for it.
    pub open spec fn short(&self, balances: Seq<Balance>, a: Seq<char>, d: Seq<char>) -> bool {
        self.get(a, d) < 0 && recorded(balances, a, d) + self.get(a, d) < 0
    }

    /// Every deduction is covered by what `balances` has on record for its
    /// address and denom.
    pub open spec fn covered(&self, balances: Seq<Balance>) -> bool {
        forall|a: Seq<char>, d: Seq<char>| #[trigger]
            self.get(a, d) < 0 ==> recorded(balances, a, d) + self.get(a, d) >= 0
    }

    /// An address and denom whose deduction is more than `balances` has on
    /// record for it, if there is one.
    pub fn find_shortfall(&self, balances: &Vec<Balance>) -> (res: Option<(String, String)>)
        requires
            self.wf(),
        ensures
            match res {
                Some((address, denom)) => self.short(balances@, address@, denom@),
                None => self.covered(balances@),
            },
    {
        let mut i: usize = 0;
        while i < self.entries.len()
            invariant
                i <= self.entries.len(),
                distinct_keys(self.entries@),
                forall|k: int|
                    0 <= k < i && (#[trigger] self.entries@[k]).amount < 0 ==> recorded(
                        balances@,
                        self.entries@[k].address@,
                        self.entries@[k].denom@,
                    ) + self.entries@[k].amount >= 0,
            decreases self.entries.len() - i,
        {
            let amount: i128 = self.entries[i].amount;
            if amount < 0 {
                let origin: i128 = recorded_amount(
                    balances,
                    &self.entries[i].address,
                    &self.entries[i].denom,
                );
                if origin < 0 || origin + amount < 0 {
                    proof {
                        let e = self.entries@[i as int];
                        assert(key_at(self.entries@, i as int, e.address@, e.denom@));
                        lemma_lookup_at(self.entries@, i as int, e.address@, e.denom@);
                    }
                    return Some((self.entries[i].address.clone(), self.entries[i].denom.clone()));
                }
            }
            i = i + 1;
        }
        proof {
            assert forall|a: Seq<char>, d: Seq<char>| #[trigger]
                self.get(a, d) < 0 implies recorded(balances@, a, d) + self.get(a, d) >= 0 by {
                let k = choose|k: int| key_at(self.entries@, k, a, d);
                lemma_lookup_at(self.entries@, k, a, d);
            }
        }
        None
    }

    /// The changes as balances: one for each address with a change that is not
    /// zero, holding one coin for each such change.
    pub fn into_balances(&self) -> (res: Vec<Balance>)
        requires
            self.wf(),
        ensures
            canonical(res@),
            forall|a: Seq<char>, d: Seq<char>| #[trigger] recorded(res@, a, d) == self.get(a, d),
            forall|d: Seq<char>| #[trigger] coin_total(res@, d) == self.total(d),
    {
        let mut out: Vec<Balance> = Vec::new();
        let mut i: usize = 0;
        while i < self.entries.len()
            invariant
                i <= self.entries.len(),
                distinct_keys(self.entries@),
                canonical(out@),
                forall|a: Seq<char>, d: Seq<char>| #[trigger]
                    recorded(out@, a, d) == lookup(self.entries@.take(i as int), a, d),
                forall|d: Seq<char>| #[trigger]
                    coin_total(out@, d) == denom_sum(self.entries@.take(i as int), d),
            decreases self.entries.len() - i,
        {
            let ghost entries = self.entries@;
            let ghost before = out@;
            let ghost a = entries[i as int].address@;
            let ghost d = entries[i as int].denom@;
            let amount: i128 = self.entries[i].amount;
            proof {
                lemma_take_step(entries, i as int);
                assert forall|a2: Seq<char>, d2: Seq<char>|
                    #[trigger] lookup(entries.take(i + 1), a2, d2) == (if key_at(entries, i as int, a2, d2) {
                        amount as int
                    } else {
                        lookup(entries.take(i as int), a2, d2)
                    }) && (key_at(entries, i as int, a2, d2) ==> lookup(
                        entries.take(i as int),
                        a2,
                        d2,
                    ) == 0) by {
                    lemma_lookup_take_step(entries, i as int, a2, d2);
                }
            }
            if amount != 0 {
                let coin = Coin { denom: self.entries[i].denom.clone(), amount };
                match find_address(&out, &self.entries[i].address) {
                    Some(j) => {
                        proof {
                            lemma_recorded_at(before, j as int, d);
                            if holds(before[j as int].coins@, d) {
                                lemma_held_is_nonzero(before[j as int].coins@, d);
                            }
                        }
                        out[j].coins.push(coin);
                        proof {
                            let after = out@;
                            let old_coins = before[j as int].coins@;
                            assert(after =~= before.update(j as int, after[j as int]));
                            assert(after[j as int].coins@ == old_coins.push(coin));
                            assert forall|d2: Seq<char>|
                                coin_total(after, d2) == denom_sum(entries.take(i + 1), d2) by {
                                lemma_coin_total_update(before, j as int, after[j as int], d2);
                                assert(old_coins.push(coin).drop_last() =~= old_coins);
                            }
                            assert forall|a2: Seq<char>, d2: Seq<char>|
                                recorded(after, a2, d2) == lookup(
                                    entries.take(i + 1),
                                    a2,
                                    d2,
                                ) by {
                                lemma_amount_of_push(old_coins, coin, d2);
                                if exists|m: int|
                                    0 <= m < before.len() && (#[trigger] before[m]).address@
                                        == a2 {
                                    let m = choose|m: int|
                                        0 <= m < before.len() && (#[trigger] before[m]).address@
                                            == a2;
                                    assert(after[m].address@ == a2);
                                    lemma_recorded_at(before, m, d2);
                                    lemma_recorded_at(after, m, d2);
                                } else {
                                    assert forall|m: int| 0 <= m < after.len() implies (
                                    #[trigger] after[m]).address@ != a2 by {
                                        assert(before[m].address@ != a2);
                                    }
                                    lemma_recorded_absent(before, a2, d2);
                                    lemma_recorded_absent(after, a2, d2);
                                }
                            }
                            assert(canonical(after)) by {
                                lemma_amount_of_push(old_coins, coin, d);
                                assert forall|m: int| 0 <= m < after.len() implies {
                                    let coins = (#[trigger] after[m]).coins@;
                                    coins.len() > 0 && distinct_denoms(coins) && all_nonzero(
                                        coins,
                                    )
                                } by {
                                    if m != j {
                                        assert(after[m] == before[m]);
                                    } else {
                                        let coins = after[m].coins@;
                                        assert forall|x: int, y: int|
                                            0 <= x < y < coins.len() implies (
                                        #[trigger] coins[x]).denom@ != (
                                        #[trigger] coins[y]).denom@ by {
                                            if y == old_coins.len() {
                                                assert(old_coins[x].denom@ != d);
                                            } else {
                                                assert(old_coins[x].denom@ != old_coins[y].denom@);
                                            }
                                        }
                                        assert forall|x: int|
                                            0 <= x < coins.len() implies (
                                        #[trigger] coins[x]).amount != 0 by {
                                            if x < old_coins.len() {
                                                assert(old_coins[x].amount != 0);
                                            }
                                        }
                                    }
                                }
                                assert forall|x: int, y: int|
                                    0 <= x < y < after.len() implies (
                                #[trigger] after[x]).address@ != (
                                #[trigger] after[y]).address@ by {
                                    assert(before[x].address@ != before[y].address@);
                                }
                            }
                        }
                    },
                    None => {
                        let mut coins: Vec<Coin> = Vec::new();
                        coins.push(coin);
                        let balance = Balance { address: self.entries[i].address.clone(), coins };
                        out.push(balance);
                        proof {
                            let after = out@;
                            assert(after.drop_last() =~= before);
                            assert(after.last() == balance);
                            assert(balance.coins@ =~= Seq::<Coin>::empty().push(coin));
                            assert(balance.coins@.drop_last() =~= Seq::<Coin>::empty());
                            assert(coin_sum(Seq::<Coin>::empty(), d) == 0);
                            assert(!holds(Seq::<Coin>::empty(), d));
                            assert forall|d2: Seq<char>|
                                coin_total(after, d2) == denom_sum(entries.take(i + 1), d2) by {
                                assert(coin_sum(Seq::<Coin>::empty(), d2) == 0);
                                assert(coin_total(after, d2) == coin_total(before, d2) + coin_sum(
                                    balance.coins@,
                                    d2,
                                ));
                                assert(coin_sum(balance.coins@, d2) == (if d == d2 {
                                    amount as int
                                } else {
                                    0
                                }));
                                assert(denom_sum(entries.take(i + 1), d2) == denom_sum(
                                    entries.take(i as int),
                                    d2,
                                ) + (if d == d2 {
                                    amount as int
                                } else {
                                    0
                                }));
                            }
                            assert forall|a2: Seq<char>, d2: Seq<char>|
                                recorded(after, a2, d2) == lookup(
                                    entries.take(i + 1),
                                    a2,
                                    d2,
                                ) by {
                                assert(!holds(Seq::<Coin>::empty(), d2));
                                lemma_amount_of_push(Seq::<Coin>::empty(), coin, d2);
                                assert(after.last().address@ == a);
                                assert(recorded(after, a2, d2) == (if a2 == a && d2 == d {
                                    amount as int
                                } else {
                                    recorded(before, a2, d2)
                                }));
                                if a2 == a {
                                    lemma_recorded_absent(before, a2, d2);
                                }
                            }
                            assert(canonical(after)) by {
                                assert forall|m: int| 0 <= m < after.len() implies {
                                    let coins = (#[trigger] after[m]).coins@;
                                    coins.len() > 0 && distinct_denoms(coins) && all_nonzero(
                                        coins,
                                    )
                                } by {
                                    if m < before.len() {
                                        assert(after[m] == before[m]);
                                    }
                                }
                                assert forall|x: int, y: int|
                                    0 <= x < y < after.len() implies (
                                #[trigger] after[x]).address@ != (
                                #[trigger] after[y]).address@ by {
                                    if y < before.len() {
                                        assert(before[x].address@ != before[y].address@);
                                    } else {
                                        assert(before[x].address@ != a);
                                    }
                                }
                            }
                        }
                    },
                }
            }
            i = i + 1;
        }
        proof {
            assert(self.entries@.take(i as int) =~= self.entries@);
        }
        out
    }
}

} // verus!
