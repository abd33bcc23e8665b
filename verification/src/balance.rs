//! Balances: the coins of one address, and sums over a list of them.

use vstd::prelude::*;
use crate::coin::{
    all_nonneg, all_nonzero, amount_of, coin_sum, distinct_denoms, holds, lemma_amount_of_bounds,
    lemma_no_match, Coin, CoinOp,
};
use crate::definition::DenomDefinition;
use crate::widesum::WideSum;

verus! {

/// An address with coins: what it holds, what it sends or receives, or by
/// how much its holdings change.
#[derive(Debug)]
pub struct Balance {
    pub address: String,
    pub coins: Vec<Coin>,
}

impl Balance {
    /// The amount of `denom` in this balance: that of the first coin of the
    /// denom, zero where there is none.
    pub open spec fn amount(&self, denom: Seq<char>) -> int {
        amount_of(self.coins@, denom)
    }

    /// The amount of the denom of `d` on which fees are due: none where the
    /// address is the issuer.
    pub open spec fn charged(&self, d: DenomDefinition) -> int {
        if self.address@ == d.issuer@ {
            0
        } else {
            self.amount(d.denom@)
        }
    }
}

impl CoinOp for Balance {
    open spec fn coin_seq(&self) -> Seq<Coin> {
        self.coins@
    }

    fn find_coin(&self, denom: &String) -> (res: Option<&Coin>) {
        self.coins.find_coin(denom)
    }
}

/// No entry holds a negative amount.
pub open spec fn entries_nonneg(entries: Seq<Balance>) -> bool {
    forall|i: int| 0 <= i < entries.len() ==> all_nonneg((#[trigger] entries[i]).coins@)
}

/// Whether no entry holds a negative amount.
pub fn has_no_negative(entries: &Vec<Balance>) -> (res: bool)
    ensures
        res == entries_nonneg(entries@),
{
    let mut i: usize = 0;
    while i < entries.len()
        invariant
            i <= entries.len(),
            forall|k: int| 0 <= k < i ==> all_nonneg((#[trigger] entries@[k]).coins@),
        decreases entries.len() - i,
    {
        let mut j: usize = 0;
        while j < entries[i].coins.len()
            invariant
                i < entries.len(),
                j <= entries@[i as int].coins@.len(),
                forall|m: int| 0 <= m < j ==> (#[trigger] entries@[i as int].coins@[m]).amount >= 0,
            decreases entries@[i as int].coins@.len() - j,
        {
            if entries[i].coins[j].amount < 0 {
                return false;
            }
            j = j + 1;
        }
        i = i + 1;
    }
    true
}

/// The sum of the amounts of `denom` over all entries.
pub open spec fn sum_amounts(entries: Seq<Balance>, denom: Seq<char>) -> int
    decreases entries.len(),
{
    if entries.len() == 0 {
        0
    } else {
        sum_amounts(entries.drop_last(), denom) + entries.last().amount(denom)
    }
}

/// The sum of the amounts of the denom of `d` over the entries whose address
/// is not its issuer.
pub open spec fn non_issuer_sum(entries: Seq<Balance>, d: DenomDefinition) -> int
    decreases entries.len(),
{
    if entries.len() == 0 {
        0
    } else {
        non_issuer_sum(entries.drop_last(), d) + entries.last().charged(d)
    }
}

/// The first `i + 1` entries are the first `i` and then entry `i`.
pub proof fn lemma_take_step<T>(s: Seq<T>, i: int)
    requires
        0 <= i < s.len(),
    ensures
        s.take(i + 1).drop_last() == s.take(i),
        s.take(i + 1).last() == s[i],
        s.take(i + 1).len() == i + 1,
{
    assert(s.take(i + 1).drop_last() =~= s.take(i));
}

/// Amounts of entries without negative coins are amounts.
pub proof fn lemma_entry_bounds(b: Balance, d: DenomDefinition)
    requires
        all_nonneg(b.coins@),
    ensures
        0 <= b.charged(d) <= b.amount(d.denom@) <= i128::MAX,
{
    lemma_amount_of_bounds(b.coins@, d.denom@);
}

/// Sums over entries without negative coins are not negative, and the fee
/// bearing part is at most the whole.
pub proof fn lemma_sums_nonneg(entries: Seq<Balance>, d: DenomDefinition)
    requires
        entries_nonneg(entries),
    ensures
        0 <= non_issuer_sum(entries, d) <= sum_amounts(entries, d.denom@),
    decreases entries.len(),
{
    if entries.len() > 0 {
        lemma_sums_nonneg(entries.drop_last(), d);
        lemma_entry_bounds(entries.last(), d);
    }
}

/// A sum over the first entries is at most the sum over all of them.
pub proof fn lemma_sum_prefix(entries: Seq<Balance>, denom: Seq<char>, i: int)
    requires
        entries_nonneg(entries),
        0 <= i <= entries.len(),
    ensures
        0 <= sum_amounts(entries.take(i), denom) <= sum_amounts(entries, denom),
    decreases entries.len(),
{
    if i == entries.len() {
        assert(entries.take(i) =~= entries);
        if entries.len() > 0 {
            lemma_sum_prefix(entries.drop_last(), denom, i - 1);
            lemma_amount_of_bounds(entries.last().coins@, denom);
        }
    } else {
        lemma_sum_prefix(entries.drop_last(), denom, i);
        assert(entries.drop_last().take(i) =~= entries.take(i));
        lemma_amount_of_bounds(entries.last().coins@, denom);
    }
}

/// The amount of denom `d` on record for address `a`: where several balances
/// name the address, the last one that holds the denom counts; zero where
/// none does.
pub open spec fn recorded(balances: Seq<Balance>, a: Seq<char>, d: Seq<char>) -> int
    decreases balances.len(),
{
    if balances.len() == 0 {
        0
    } else if balances.last().address@ == a && holds(balances.last().coins@, d) {
        balances.last().amount(d)
    } else {
        recorded(balances.drop_last(), a, d)
    }
}

/// No two balances name the same address.
pub open spec fn distinct_addresses(balances: Seq<Balance>) -> bool {
    forall|i: int, j: int|
        0 <= i < j < balances.len() ==> (#[trigger] balances[i]).address@ != (
        #[trigger] balances[j]).address@
}

/// With distinct addresses, what is on record for an address is what its
/// balance holds.
pub proof fn lemma_recorded_at(balances: Seq<Balance>, j: int, d: Seq<char>)
    requires
        distinct_addresses(balances),
        0 <= j < balances.len(),
    ensures
        recorded(balances, balances[j].address@, d) == balances[j].amount(d),
    decreases balances.len(),
{
    let a = balances[j].address@;
    if j == balances.len() - 1 {
        if !holds(balances.last().coins@, d) {
            lemma_no_match(balances.last().coins@, d);
            lemma_recorded_absent(balances.drop_last(), a, d);
        }
    } else {
        assert(balances.last().address@ != a);
        lemma_recorded_at(balances.drop_last(), j, d);
    }
}

/// Nothing is on record for an address that no balance names.
pub proof fn lemma_recorded_absent(balances: Seq<Balance>, a: Seq<char>, d: Seq<char>)
    requires
        forall|i: int| 0 <= i < balances.len() ==> (#[trigger] balances[i]).address@ != a,
    ensures
        recorded(balances, a, d) == 0,
    decreases balances.len(),
{
    if balances.len() > 0 {
        assert(balances.last().address@ != a);
        lemma_recorded_absent(balances.drop_last(), a, d);
    }
}

/// The form of a list of balance changes: no address twice, and under each
/// address at least one coin, no denom twice and no amount zero.
pub open spec fn canonical(balances: Seq<Balance>) -> bool {
    &&& distinct_addresses(balances)
    &&& forall|i: int|
        0 <= i < balances.len() ==> {
            let coins = (#[trigger] balances[i]).coins@;
            coins.len() > 0 && distinct_denoms(coins) && all_nonzero(coins)
        }
}

/// The sum of the amounts of `denom` over all coins of all balances.
pub open spec fn coin_total(balances: Seq<Balance>, denom: Seq<char>) -> int
    decreases balances.len(),
{
    if balances.len() == 0 {
        0
    } else {
        coin_total(balances.drop_last(), denom) + coin_sum(balances.last().coins@, denom)
    }
}

/// Replacing one balance changes the total by what its coins change.
pub proof fn lemma_coin_total_update(balances: Seq<Balance>, j: int, b: Balance, denom: Seq<char>)
    requires
        0 <= j < balances.len(),
    ensures
        coin_total(balances.update(j, b), denom) == coin_total(balances, denom) - coin_sum(
            balances[j].coins@,
            denom,
        ) + coin_sum(b.coins@, denom),
    decreases balances.len(),
{
    let updated = balances.update(j, b);
    if j == balances.len() - 1 {
        assert(updated.drop_last() =~= balances.drop_last());
    } else {
        lemma_coin_total_update(balances.drop_last(), j, b, denom);
        assert(updated.drop_last() =~= balances.drop_last().update(j, b));
    }
}

/// The index of the balance of `address`, if there is one.
pub fn find_address(balances: &Vec<Balance>, address: &String) -> (res: Option<usize>)
    ensures
        match res {
            Some(j) => j < balances.len() && balances@[j as int].address@ == address@,
            None => forall|m: int|
                0 <= m < balances.len() ==> (#[trigger] balances@[m]).address@ != address@,
        },
{
    let mut j: usize = 0;
    while j < balances.len()
        invariant
            j <= balances.len(),
            forall|m: int| 0 <= m < j ==> (#[trigger] balances@[m]).address@ != address@,
        decreases balances.len() - j,
    {
        if balances[j].address == *address {
            return Some(j);
        }
        j = j + 1;
    }
    None
}

/// The amount of `denom` on record for `address`.
pub fn recorded_amount(balances: &Vec<Balance>, address: &String, denom: &String) -> (res: i128)
    ensures
        res == recorded(balances@, address@, denom@),
{
    let mut res: i128 = 0;
    let mut i: usize = 0;
    while i < balances.len()
        invariant
            i <= balances.len(),
            res == recorded(balances@.take(i as int), address@, denom@),
        decreases balances.len() - i,
    {
        proof {
            lemma_take_step(balances@, i as int);
        }
        if balances[i].address == *address {
            match balances[i].find_coin(denom) {
                Some(coin) => {
                    res = coin.amount;
                },
                None => {},
            }
        }
        i = i + 1;
    }
    proof {
        assert(balances@.take(i as int) =~= balances@);
    }
    res
}

/// Sums over a list of balances.
pub trait BalanceOp {
    /// The balances that the sums run over, in order.
    spec fn entry_seq(&self) -> Seq<Balance>;

    /// The sum of the amounts of `denom`.
    fn get_coin_sum(&self, denom: &String) -> (res: WideSum)
        requires
            entries_nonneg(self.entry_seq()),
        ensures
            res.wf(),
            res.value() == sum_amounts(self.entry_seq(), denom@),
    ;

    /// The sum of the amounts of the denom of `skip_denom`, without the
    /// entries of its issuer.
    fn get_filtered_coin_sum(&self, skip_denom: &DenomDefinition) -> (res: WideSum)
        requires
            entries_nonneg(self.entry_seq()),
        ensures
            res.wf(),
            res.value() == non_issuer_sum(self.entry_seq(), *skip_denom),
    ;
}

impl BalanceOp for Vec<Balance> {
    open spec fn entry_seq(&self) -> Seq<Balance> {
        self@
    }

    fn get_coin_sum(&self, denom: &String) -> (res: WideSum) {
        let mut sum = WideSum::zero();
        let mut i: usize = 0;
        while i < self.len()
            invariant
                i <= self.len(),
                entries_nonneg(self@),
                sum.wf(),
                sum.carry <= i,
                sum.value() == sum_amounts(self@.take(i as int), denom@),
            decreases self.len() - i,
        {
            let amount: i128 = match self[i].find_coin(denom) {
                Some(coin) => coin.amount,
                None => 0,
            };
            proof {
                lemma_take_step(self@, i as int);
                lemma_amount_of_bounds(self@[i as int].coins@, denom@);
            }
            sum = sum.plus(amount);
            i = i + 1;
        }
        proof {
            assert(self@.take(i as int) =~= self@);
        }
        sum
    }

    fn get_filtered_coin_sum(&self, skip_denom: &DenomDefinition) -> (res: WideSum) {
        let mut sum = WideSum::zero();
        let mut i: usize = 0;
        while i < self.len()
            invariant
                i <= self.len(),
                entries_nonneg(self@),
                sum.wf(),
                sum.carry <= i,
                sum.value() == non_issuer_sum(self@.take(i as int), *skip_denom),
            decreases self.len() - i,
        {
            proof {
                lemma_take_step(self@, i as int);
                lemma_entry_bounds(self@[i as int], *skip_denom);
            }
            if skip_denom.issuer != self[i].address {
                let amount: i128 = match self[i].find_coin(&skip_denom.denom) {
                    Some(coin) => coin.amount,
                    None => 0,
                };
                sum = sum.plus(amount);
            }
            i = i + 1;
        }
        proof {
            assert(self@.take(i as int) =~= self@);
        }
        sum
    }
}

} // verus!
