//! Coins, and the lookup of a denom among the coins of one holder.

use vstd::prelude::*;

verus! {

/// An amount of one denom. Amounts held and sent are never negative; an
/// amount in a balance change is signed.
#[derive(Debug)]
pub struct Coin {
    pub denom: String,
    pub amount: i128,
}

/// `coins[j]` is the first coin of `denom`.
pub open spec fn is_first_match(coins: Seq<Coin>, denom: Seq<char>, j: int) -> bool {
    &&& 0 <= j < coins.len()
    &&& coins[j].denom@ == denom
    &&& forall|k: int| 0 <= k < j ==> (#[trigger] coins[k]).denom@ != denom
}

/// Some coin of `coins` is of `denom`.
pub open spec fn holds(coins: Seq<Coin>, denom: Seq<char>) -> bool {
    exists|j: int| 0 <= j < coins.len() && (#[trigger] coins[j]).denom@ == denom
}

/// The amount of the first coin of `denom`, zero where there is none.
pub open spec fn amount_of(coins: Seq<Coin>, denom: Seq<char>) -> int {
    if exists|j: int| is_first_match(coins, denom, j) {
        coins[choose|j: int| is_first_match(coins, denom, j)].amount as int
    } else {
        0
    }
}

/// No coin has a negative amount.
pub open spec fn all_nonneg(coins: Seq<Coin>) -> bool {
    forall|j: int| 0 <= j < coins.len() ==> (#[trigger] coins[j]).amount >= 0
}

/// No two coins share a denom.
pub open spec fn distinct_denoms(coins: Seq<Coin>) -> bool {
    forall|j: int, k: int|
        0 <= j < k < coins.len() ==> (#[trigger] coins[j]).denom@ != (#[trigger] coins[k]).denom@
}

/// The amount that a lookup found.
pub open spec fn found_amount(found: Option<&Coin>) -> int {
    match found {
        Some(c) => c.amount as int,
        None => 0,
    }
}

/// There is at most one first match, and its amount is `amount_of`.
pub proof fn lemma_first_match(coins: Seq<Coin>, denom: Seq<char>, j: int)
    requires
        is_first_match(coins, denom, j),
    ensures
        amount_of(coins, denom) == coins[j].amount,
        holds(coins, denom),
{
    let c = choose|j: int| is_first_match(coins, denom, j);
    if c < j {
        assert(coins[c].denom@ != denom);
    } else if j < c {
        assert(coins[j].denom@ != denom);
    }
}

/// Where no coin is of `denom`, the amount is zero.
pub proof fn lemma_no_match(coins: Seq<Coin>, denom: Seq<char>)
    requires
        !holds(coins, denom),
    ensures
        amount_of(coins, denom) == 0,
{
    if exists|j: int| is_first_match(coins, denom, j) {
        let c = choose|j: int| is_first_match(coins, denom, j);
        assert(coins[c].denom@ == denom);
    }
}

/// The amount of a denom is the amount of one of the coins, or zero.
pub proof fn lemma_amount_of_bounds(coins: Seq<Coin>, denom: Seq<char>)
    requires
        all_nonneg(coins),
    ensures
        0 <= amount_of(coins, denom) <= i128::MAX,
{
    if exists|j: int| is_first_match(coins, denom, j) {
        let c = choose|j: int| is_first_match(coins, denom, j);
        assert(coins[c].amount >= 0);
    }
}

/// No coin has the amount zero.
pub open spec fn all_nonzero(coins: Seq<Coin>) -> bool {
    forall|j: int| 0 <= j < coins.len() ==> (#[trigger] coins[j]).amount != 0
}

/// The sum of the amounts of the coins of `denom`.
pub open spec fn coin_sum(coins: Seq<Coin>, denom: Seq<char>) -> int
    decreases coins.len(),
{
    if coins.len() == 0 {
        0
    } else {
        coin_sum(coins.drop_last(), denom) + (if coins.last().denom@ == denom {
            coins.last().amount as int
        } else {
            0
        })
    }
}

/// Where a coin of `denom` stands at `j`, some coin is the first of it.
pub proof fn lemma_first_match_exists(coins: Seq<Coin>, denom: Seq<char>, j: int)
    requires
        0 <= j < coins.len(),
        coins[j].denom@ == denom,
    ensures
        exists|f: int| is_first_match(coins, denom, f),
    decreases j,
{
    if exists|k: int| 0 <= k < j && (#[trigger] coins[k]).denom@ == denom {
        let k = choose|k: int| 0 <= k < j && (#[trigger] coins[k]).denom@ == denom;
        lemma_first_match_exists(coins, denom, k);
    } else {
        assert(is_first_match(coins, denom, j));
    }
}

/// Among coins without a zero amount, a denom that is held has an amount.
pub proof fn lemma_held_is_nonzero(coins: Seq<Coin>, denom: Seq<char>)
    requires
        all_nonzero(coins),
        holds(coins, denom),
    ensures
        amount_of(coins, denom) != 0,
{
    let j = choose|j: int| 0 <= j < coins.len() && (#[trigger] coins[j]).denom@ == denom;
    lemma_first_match_exists(coins, denom, j);
    let f = choose|f: int| is_first_match(coins, denom, f);
    lemma_first_match(coins, denom, f);
}

/// What a new coin adds: its amount under its own denom, where that was not
/// held before, and nothing under another.
pub proof fn lemma_amount_of_push(coins: Seq<Coin>, c: Coin, denom: Seq<char>)
    requires
        !holds(coins, c.denom@),
    ensures
        amount_of(coins.push(c), denom) == (if denom == c.denom@ {
            c.amount as int
        } else {
            amount_of(coins, denom)
        }),
        holds(coins.push(c), denom) == (denom == c.denom@ || holds(coins, denom)),
{
    let pushed = coins.push(c);
    let n = coins.len() as int;
    assert(pushed[n] == c);
    assert forall|k: int| 0 <= k < n implies #[trigger] pushed[k] == coins[k] by {}
    if denom == c.denom@ {
        assert forall|k: int| 0 <= k < n implies (#[trigger] pushed[k]).denom@ != denom by {
            assert(coins[k].denom@ != c.denom@);
        }
        assert(is_first_match(pushed, denom, n));
        lemma_first_match(pushed, denom, n);
    } else {
        if holds(coins, denom) {
            let j = choose|j: int| 0 <= j < coins.len() && (#[trigger] coins[j]).denom@ == denom;
            lemma_first_match_exists(coins, denom, j);
            let f = choose|f: int| is_first_match(coins, denom, f);
            assert(is_first_match(pushed, denom, f)) by {
                assert forall|k: int| 0 <= k < f implies (#[trigger] pushed[k]).denom@
                    != denom by {
                    assert(coins[k].denom@ != denom);
                }
            }
            lemma_first_match(coins, denom, f);
            lemma_first_match(pushed, denom, f);
        } else {
            lemma_no_match(coins, denom);
            if holds(pushed, denom) {
                let j = choose|j: int|
                    0 <= j < pushed.len() && (#[trigger] pushed[j]).denom@ == denom;
                assert(coins[j].denom@ == denom);
            }
            lemma_no_match(pushed, denom);
        }
    }
}

/// Lookup of a denom among coins.
pub trait CoinOp {
    /// The coins that the lookup searches, in order.
    spec fn coin_seq(&self) -> Seq<Coin>;

    /// The first coin of `denom`, if there is one.
    fn find_coin(&self, denom: &String) -> (res: Option<&Coin>)
        ensures
            match res {
                Some(c) => exists|j: int|
                    #[trigger] is_first_match(self.coin_seq(), denom@, j) && self.coin_seq()[j]
                        == *c,
                None => !holds(self.coin_seq(), denom@),
            },
            found_amount(res) == amount_of(self.coin_seq(), denom@),
    ;
}

impl CoinOp for Vec<Coin> {
    open spec fn coin_seq(&self) -> Seq<Coin> {
        self@
    }

    fn find_coin(&self, denom: &String) -> (res: Option<&Coin>) {
        let mut i: usize = 0;
        while i < self.len()
            invariant
                i <= self.len(),
                forall|k: int| 0 <= k < i ==> (#[trigger] self@[k]).denom@ != denom@,
            decreases self.len() - i,
        {
            if self[i].denom == *denom {
                let found = &self[i];
                proof {
                    assert(self.coin_seq() == self@);
                    assert(is_first_match(self@, denom@, i as int) && self@[i as int] == *found);
                    lemma_first_match(self@, denom@, i as int);
                }
                return Some(found);
            }
            i = i + 1;
        }
        proof {
            lemma_no_match(self@, denom@);
        }
        None
    }
}

} // verus!
