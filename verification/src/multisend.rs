//! A multi-send transfer, what it costs its senders, and how it fills the
//! ledger of balance changes.

use vstd::prelude::*;
use crate::balance::{
    entries_nonneg, has_no_negative, lemma_entry_bounds, lemma_sum_prefix, lemma_sums_nonneg, lemma_take_step,
    non_issuer_sum, sum_amounts, Balance, BalanceOp,
};
use crate::coin::{lemma_amount_of_bounds, CoinOp};
use crate::definition::{all_wf, DenomDefinition};
use crate::error::Error;
use crate::ledger::Ledger;
use crate::rate::{lemma_scaled_share_bounds, scaled_share, Rate};

verus! {

/// A transfer of coins of several denoms from several addresses to several
/// addresses.
#[derive(Debug)]
pub struct MultiSend {
    /// The addresses that send, each with the coins it sends.
    pub inputs: Vec<Balance>,
    /// The addresses that receive, each with the coins it receives.
    pub outputs: Vec<Balance>,
}

/// What the entries of address `a` hold of `denom`, added up.
pub open spec fn held_by(outputs: Seq<Balance>, denom: Seq<char>, a: Seq<char>) -> int
    decreases outputs.len(),
{
    if outputs.len() == 0 {
        0
    } else {
        held_by(outputs.drop_last(), denom, a) + (if outputs.last().address@ == a {
            outputs.last().amount(denom)
        } else {
            0
        })
    }
}

/// What one address holds is not negative and at most what all hold.
pub proof fn lemma_held_bounds(outputs: Seq<Balance>, denom: Seq<char>, a: Seq<char>)
    requires
        entries_nonneg(outputs),
    ensures
        0 <= held_by(outputs, denom, a) <= sum_amounts(outputs, denom),
    decreases outputs.len(),
{
    if outputs.len() > 0 {
        lemma_held_bounds(outputs.drop_last(), denom, a);
        lemma_amount_of_bounds(outputs.last().coins@, denom);
    }
}

impl MultiSend {
    /// No input and no output holds a negative amount.
    pub open spec fn wf(&self) -> bool {
        entries_nonneg(self.inputs@) && entries_nonneg(self.outputs@)
    }

    /// Whether no input and no output holds a negative amount.
    pub fn is_valid(&self) -> (res: bool)
        ensures
            res == self.wf(),
    {
        has_no_negative(&self.inputs) && has_no_negative(&self.outputs)
    }

    /// What the senders other than the issuer send of the denom of `d`.
    pub open spec fn n_in(&self, d: DenomDefinition) -> int {
        non_issuer_sum(self.inputs@, d)
    }

    /// What the receivers other than the issuer receive of the denom of `d`.
    pub open spec fn n_out(&self, d: DenomDefinition) -> int {
        non_issuer_sum(self.outputs@, d)
    }

    /// The inputs and the outputs of the denom of `d` add up to the same.
    pub open spec fn conserves(&self, d: DenomDefinition) -> bool {
        sum_amounts(self.inputs@, d.denom@) == sum_amounts(self.outputs@, d.denom@)
    }

    /// The fee that input `b` owes under `rate`: nothing where it comes from
    /// the issuer, else the share of its amount, rounded up.
    pub open spec fn fee(&self, d: DenomDefinition, rate: Rate, b: Balance) -> int {
        if b.address@ == d.issuer@ {
            0
        } else {
            scaled_share(b.amount(d.denom@), rate, self.n_in(d), self.n_out(d))
        }
    }

    /// What is burnt on top of input `b`.
    pub open spec fn burn_share(&self, d: DenomDefinition, b: Balance) -> int {
        self.fee(d, d.burn_rate, b)
    }

    /// What input `b` pays to the issuer on top of its amount.
    pub open spec fn commission_share(&self, d: DenomDefinition, b: Balance) -> int {
        self.fee(d, d.commission_rate, b)
    }

    /// What is taken from the sender of input `b`: the amount and both fees.
    pub open spec fn debit(&self, d: DenomDefinition, b: Balance) -> int {
        b.amount(d.denom@) + self.burn_share(d, b) + self.commission_share(d, b)
    }

    /// What is burnt on top of `inputs`.
    pub open spec fn burn_sum(&self, d: DenomDefinition, inputs: Seq<Balance>) -> int
        decreases inputs.len(),
    {
        if inputs.len() == 0 {
            0
        } else {
            self.burn_sum(d, inputs.drop_last()) + self.burn_share(d, inputs.last())
        }
    }

    /// What `inputs` pay to the issuer.
    pub open spec fn commission_sum(&self, d: DenomDefinition, inputs: Seq<Balance>) -> int
        decreases inputs.len(),
    {
        if inputs.len() == 0 {
            0
        } else {
            self.commission_sum(d, inputs.drop_last()) + self.commission_share(d, inputs.last())
        }
    }

    /// What is taken from the senders of `inputs`.
    pub open spec fn debit_sum(&self, d: DenomDefinition, inputs: Seq<Balance>) -> int
        decreases inputs.len(),
    {
        if inputs.len() == 0 {
            0
        } else {
            self.debit_sum(d, inputs.drop_last()) + self.debit(d, inputs.last())
        }
    }

    /// What is taken from address `a` for those of `inputs` that it sends.
    pub open spec fn sent_by(&self, d: DenomDefinition, inputs: Seq<Balance>, a: Seq<char>) -> int
        decreases inputs.len(),
    {
        if inputs.len() == 0 {
            0
        } else {
            self.sent_by(d, inputs.drop_last(), a) + (if inputs.last().address@ == a {
                self.debit(d, inputs.last())
            } else {
                0
            })
        }
    }

    /// The change that `inputs` make to address `a`: the commissions, where it
    /// is the issuer, less what it sends.
    pub open spec fn input_delta(
        &self,
        d: DenomDefinition,
        inputs: Seq<Balance>,
        a: Seq<char>,
    ) -> int {
        (if a == d.issuer@ {
            self.commission_sum(d, inputs)
        } else {
            0
        }) - self.sent_by(d, inputs, a)
    }

    /// The change of address `a` in the denom of `d`, under `d`.
    pub open spec fn delta_for(&self, d: DenomDefinition, a: Seq<char>) -> int {
        held_by(self.outputs@, d.denom@, a) + self.input_delta(d, self.inputs@, a)
    }

    /// The change of address `a` in `denom`: the changes under each
    /// definition of that denom, added up.
    pub open spec fn delta(
        &self,
        definitions: Seq<DenomDefinition>,
        a: Seq<char>,
        denom: Seq<char>,
    ) -> int
        decreases definitions.len(),
    {
        if definitions.len() == 0 {
            0
        } else {
            self.delta(definitions.drop_last(), a, denom) + (if definitions.last().denom@
                == denom {
                self.delta_for(definitions.last(), a)
            } else {
                0
            })
        }
    }

    /// What is burnt of `denom`, under each definition of it, added up.
    pub open spec fn burnt(&self, definitions: Seq<DenomDefinition>, denom: Seq<char>) -> int
        decreases definitions.len(),
    {
        if definitions.len() == 0 {
            0
        } else {
            self.burnt(definitions.drop_last(), denom) + (if definitions.last().denom@ == denom {
                self.burn_sum(definitions.last(), self.inputs@)
            } else {
                0
            })
        }
    }

    /// What is taken from all senders under all definitions.
    pub open spec fn total_debit(&self, definitions: Seq<DenomDefinition>) -> int
        decreases definitions.len(),
    {
        if definitions.len() == 0 {
            0
        } else {
            self.total_debit(definitions.drop_last()) + self.debit_sum(
                definitions.last(),
                self.inputs@,
            )
        }
    }

    /// Under every definition the inputs and the outputs add up to the same.
    pub open spec fn conserved(&self, definitions: Seq<DenomDefinition>) -> bool {
        forall|k: int|
            0 <= k < definitions.len() ==> self.conserves(#[trigger] definitions[k])
    }

    /// The fees of an input are not negative and at most its amount.
    pub proof fn lemma_fee_bounds(&self, d: DenomDefinition, b: Balance)
        requires
            self.wf(),
            d.wf(),
            crate::coin::all_nonneg(b.coins@),
        ensures
            0 <= b.amount(d.denom@) <= i128::MAX,
            0 <= self.burn_share(d, b) <= b.amount(d.denom@),
            0 <= self.commission_share(d, b) <= b.amount(d.denom@),
            b.amount(d.denom@) <= self.debit(d, b),
    {
        lemma_entry_bounds(b, d);
        lemma_sums_nonneg(self.inputs@, d);
        lemma_sums_nonneg(self.outputs@, d);
        lemma_scaled_share_bounds(b.amount(d.denom@), d.burn_rate, self.n_in(d), self.n_out(d));
        lemma_scaled_share_bounds(
            b.amount(d.denom@),
            d.commission_rate,
            self.n_in(d),
            self.n_out(d),
        );
    }

    /// What is taken from senders is what they send, what is burnt and what
    /// goes to the issuer; none of the three is negative.
    pub proof fn lemma_debit_parts(&self, d: DenomDefinition, inputs: Seq<Balance>)
        requires
            self.wf(),
            d.wf(),
            entries_nonneg(inputs),
        ensures
            self.debit_sum(d, inputs) == sum_amounts(inputs, d.denom@) + self.burn_sum(d, inputs)
                + self.commission_sum(d, inputs),
            0 <= sum_amounts(inputs, d.denom@),
            0 <= self.burn_sum(d, inputs),
            0 <= self.commission_sum(d, inputs),
        decreases inputs.len(),
    {
        if inputs.len() > 0 {
            self.lemma_debit_parts(d, inputs.drop_last());
            self.lemma_fee_bounds(d, inputs.last());
        }
    }

    /// What is taken from the first senders is at most what is taken from all.
    pub proof fn lemma_debit_prefix(&self, d: DenomDefinition, inputs: Seq<Balance>, i: int)
        requires
            self.wf(),
            d.wf(),
            entries_nonneg(inputs),
            0 <= i <= inputs.len(),
        ensures
            0 <= self.debit_sum(d, inputs.take(i)) <= self.debit_sum(d, inputs),
        decreases inputs.len(),
    {
        if i == inputs.len() {
            assert(inputs.take(i) =~= inputs);
            self.lemma_debit_parts(d, inputs);
        } else {
            self.lemma_debit_prefix(d, inputs.drop_last(), i);
            assert(inputs.drop_last().take(i) =~= inputs.take(i));
            self.lemma_fee_bounds(d, inputs.last());
        }
    }

    /// What is taken under the first definitions is at most what is taken under
    /// all.
    pub proof fn lemma_total_debit_prefix(&self, definitions: Seq<DenomDefinition>, k: int)
        requires
            self.wf(),
            all_wf(definitions),
            0 <= k <= definitions.len(),
        ensures
            0 <= self.total_debit(definitions.take(k)) <= self.total_debit(definitions),
        decreases definitions.len(),
    {
        if k == definitions.len() {
            assert(definitions.take(k) =~= definitions);
            if k > 0 {
                self.lemma_total_debit_prefix(definitions.drop_last(), k - 1);
                self.lemma_debit_parts(definitions.last(), self.inputs@);
            }
        } else {
            self.lemma_total_debit_prefix(definitions.drop_last(), k);
            assert(definitions.drop_last().take(k) =~= definitions.take(k));
            self.lemma_debit_parts(definitions.last(), self.inputs@);
        }
    }

    /// Checks that the inputs and the outputs of the denom of `definition`
    /// add up to the same amount.
    pub fn validate_inout(&self, definition: &DenomDefinition) -> (res: Result<(), Error>)
        requires
            self.wf(),
        ensures
            match res {
                Ok(_) => self.conserves(*definition),
                Err(e) => !self.conserves(*definition) && (e matches Error::InputOutputMismatch {
                    denom,
                } && denom@ == definition.denom@),
            },
    {
        let input_sum = self.inputs.get_coin_sum(&definition.denom);
        let output_sum = self.outputs.get_coin_sum(&definition.denom);
        if !input_sum.same(&output_sum) {
            return Err(Error::InputOutputMismatch { denom: definition.denom.clone() });
        }
        Ok(())
    }

    /// Enters into `changes` what the inputs of the denom of `definition` take
    /// from their senders and pay to the issuer.
    ///
    /// `spent` is what the ledger has taken from senders so far; the result is
    /// what it has taken after these inputs. The transfer fails where that is
    /// more than an amount can hold.
    pub fn process_input(
        &self,
        definition: &DenomDefinition,
        changes: &mut Ledger,
        spent: i128,
    ) -> (res: Result<i128, Error>)
        requires
            self.wf(),
            definition.wf(),
            self.conserves(*definition),
            old(changes).wf(),
            0 <= spent,
            forall|a: Seq<char>, d: Seq<char>|
                -spent <= #[trigger] old(changes).get(a, d) && old(changes).get(a, d) <= spent,
        ensures
            match res {
                Ok(total) => {
                    &&& total == spent + self.debit_sum(*definition, self.inputs@)
                    &&& final(changes).wf()
                    &&& forall|a: Seq<char>, d: Seq<char>| #[trigger]
                        final(changes).get(a, d) == old(changes).get(a, d) + (if d
                            == definition.denom@ {
                            self.input_delta(*definition, self.inputs@, a)
                        } else {
                            0
                        })
                    &&& forall|d: Seq<char>| #[trigger]
                        final(changes).total(d) == old(changes).total(d) - (if d
                            == definition.denom@ {
                            sum_amounts(self.inputs@, d) + self.burn_sum(*definition, self.inputs@)
                        } else {
                            0
                        })
                    &&& forall|a: Seq<char>, d: Seq<char>|
                        -total <= #[trigger] final(changes).get(a, d) && final(changes).get(a, d)
                            <= total - sum_amounts(self.inputs@, definition.denom@)
                },
                Err(e) => e == Error::ArithmeticFailure && spent + self.debit_sum(
                    *definition,
                    self.inputs@,
                ) > i128::MAX,
            },
    {
        proof {
            lemma_sums_nonneg(self.inputs@, *definition);
            lemma_sums_nonneg(self.outputs@, *definition);
            self.lemma_debit_parts(*definition, self.inputs@);
        }
        let non_issuer_input_sum = match self.inputs.get_filtered_coin_sum(definition).to_amount() {
            Some(sum) => sum,
            None => {
                return Err(Error::ArithmeticFailure);
            },
        };
        let non_issuer_output_sum = match self.outputs.get_filtered_coin_sum(
            definition,
        ).to_amount() {
            Some(sum) => sum,
            None => {
                return Err(Error::ArithmeticFailure);
            },
        };
        let mut total: i128 = spent;
        let mut i: usize = 0;
        while i < self.inputs.len()
            invariant
                i <= self.inputs.len(),
                self.wf(),
                definition.wf(),
                changes.wf(),
                non_issuer_input_sum == self.n_in(*definition),
                non_issuer_output_sum == self.n_out(*definition),
                0 <= non_issuer_input_sum,
                0 <= non_issuer_output_sum,
                0 <= spent <= total,
                total == spent + self.debit_sum(*definition, self.inputs@.take(i as int)),
                0 <= sum_amounts(self.inputs@.take(i as int), definition.denom@),
                forall|a: Seq<char>, d: Seq<char>| #[trigger]
                    changes.get(a, d) == old(changes).get(a, d) + (if d == definition.denom@ {
                        self.input_delta(*definition, self.inputs@.take(i as int), a)
                    } else {
                        0
                    }),
                forall|d: Seq<char>| #[trigger]
                    changes.total(d) == old(changes).total(d) - (if d == definition.denom@ {
                        sum_amounts(self.inputs@.take(i as int), d) + self.burn_sum(
                            *definition,
                            self.inputs@.take(i as int),
                        )
                    } else {
                        0
                    }),
                forall|a: Seq<char>, d: Seq<char>|
                    -total <= #[trigger] changes.get(a, d) && changes.get(a, d) <= total
                        - sum_amounts(self.inputs@.take(i as int), definition.denom@),
            decreases self.inputs.len() - i,
        {
            let input = &self.inputs[i];
            proof {
                lemma_take_step(self.inputs@, i as int);
                self.lemma_fee_bounds(*definition, *input);
                self.lemma_debit_prefix(*definition, self.inputs@, i + 1);
            }
            match input.find_coin(&definition.denom) {
                Some(coin) => {
                    let exempt = input.address == definition.issuer;
                    let burnt: i128 = if exempt {
                        0
                    } else {
                        definition.burn_rate.share(
                            coin.amount,
                            non_issuer_input_sum,
                            non_issuer_output_sum,
                        )
                    };
                    let commission: i128 = if exempt {
                        0
                    } else {
                        definition.commission_rate.share(
                            coin.amount,
                            non_issuer_input_sum,
                            non_issuer_output_sum,
                        )
                    };
                    let fees: i128 = match burnt.checked_add(commission) {
                        Some(sum) => sum,
                        None => {
                            return Err(Error::ArithmeticFailure);
                        },
                    };
                    let debit: i128 = match fees.checked_add(coin.amount) {
                        Some(sum) => sum,
                        None => {
                            return Err(Error::ArithmeticFailure);
                        },
                    };
                    total = match total.checked_add(debit) {
                        Some(sum) => sum,
                        None => {
                            return Err(Error::ArithmeticFailure);
                        },
                    };
                    changes.add(&input.address, &definition.denom, -debit);
                    changes.add(&definition.issuer, &definition.denom, commission);
                },
                None => {},
            }
            i = i + 1;
        }
        proof {
            assert(self.inputs@.take(i as int) =~= self.inputs@);
        }
        Ok(total)
    }

    /// Enters into `changes` what the outputs of the denom of `definition`
    /// give to their receivers.
    pub fn process_output(&self, definition: &DenomDefinition, changes: &mut Ledger)
        requires
            self.wf(),
            old(changes).wf(),
            forall|a: Seq<char>| #[trigger]
                old(changes).get(a, definition.denom@) + sum_amounts(
                    self.outputs@,
                    definition.denom@,
                ) <= i128::MAX,
        ensures
            final(changes).wf(),
            forall|a: Seq<char>, d: Seq<char>| #[trigger]
                final(changes).get(a, d) == old(changes).get(a, d) + (if d == definition.denom@ {
                    held_by(self.outputs@, d, a)
                } else {
                    0
                }),
            forall|d: Seq<char>| #[trigger]
                final(changes).total(d) == old(changes).total(d) + (if d == definition.denom@ {
                    sum_amounts(self.outputs@, d)
                } else {
                    0
                }),
    {
        let mut i: usize = 0;
        while i < self.outputs.len()
            invariant
                i <= self.outputs.len(),
                self.wf(),
                changes.wf(),
                forall|a: Seq<char>| #[trigger]
                    old(changes).get(a, definition.denom@) + sum_amounts(
                        self.outputs@,
                        definition.denom@,
                    ) <= i128::MAX,
                forall|a: Seq<char>, d: Seq<char>| #[trigger]
                    changes.get(a, d) == old(changes).get(a, d) + (if d == definition.denom@ {
                        held_by(self.outputs@.take(i as int), d, a)
                    } else {
                        0
                    }),
                forall|d: Seq<char>| #[trigger]
                    changes.total(d) == old(changes).total(d) + (if d == definition.denom@ {
                        sum_amounts(self.outputs@.take(i as int), d)
                    } else {
                        0
                    }),
            decreases self.outputs.len() - i,
        {
            let output = &self.outputs[i];
            proof {
                lemma_take_step(self.outputs@, i as int);
                lemma_amount_of_bounds(output.coins@, definition.denom@);
                lemma_sum_prefix(self.outputs@, definition.denom@, i + 1);
                lemma_held_bounds(
                    self.outputs@.take(i + 1),
                    definition.denom@,
                    output.address@,
                );
                changes.lemma_get_is_amount(output.address@, definition.denom@);
            }
            match output.find_coin(&definition.denom) {
                Some(coin) => {
                    changes.add(&output.address, &definition.denom, coin.amount);
                },
                None => {},
            }
            i = i + 1;
        }
        proof {
            assert(self.outputs@.take(i as int) =~= self.outputs@);
        }
    }

    /// Definition `k` is the first that is not conserved.
    pub open spec fn first_mismatch(&self, definitions: Seq<DenomDefinition>, k: int) -> bool {
        &&& 0 <= k < definitions.len()
        &&& !self.conserves(definitions[k])
        &&& forall|j: int| 0 <= j < k ==> self.conserves(#[trigger] definitions[j])
    }

    /// Checks the transfer against every definition, and then enters into the
    /// empty ledger `changes` what it changes under each of them.
    ///
    /// A mismatch names the denom of the first definition that is not
    /// conserved. Where every definition is conserved, filling the ledger
    /// fails if the senders are charged more than an amount can hold.
    pub fn process(&self, definitions: &[DenomDefinition], changes: &mut Ledger) -> (res: Result<
        (),
        Error,
    >)
        requires
            self.wf(),
            all_wf(definitions@),
            old(changes).wf(),
            forall|a: Seq<char>, d: Seq<char>| #[trigger] old(changes).get(a, d) == 0,
            forall|d: Seq<char>| #[trigger] old(changes).total(d) == 0,
        ensures
            match res {
                Ok(_) => {
                    &&& self.conserved(definitions@)
                    &&& self.total_debit(definitions@) <= i128::MAX
                    &&& final(changes).wf()
                    &&& forall|a: Seq<char>, d: Seq<char>| #[trigger]
                        final(changes).get(a, d) == self.delta(definitions@, a, d)
                    &&& forall|d: Seq<char>| #[trigger]
                        final(changes).total(d) == -self.burnt(definitions@, d)
                },
                Err(Error::InputOutputMismatch { denom }) => exists|k: int|
                    #[trigger] self.first_mismatch(definitions@, k) && definitions@[k].denom@
                        == denom@,
                Err(Error::ArithmeticFailure) => self.conserved(definitions@) && self.total_debit(
                    definitions@,
                ) > i128::MAX,
                Err(Error::InsufficientBalance { .. }) => false,
            },
    {
        let mut k: usize = 0;
        while k < definitions.len()
            invariant
                k <= definitions.len(),
                self.wf(),
                forall|j: int| 0 <= j < k ==> self.conserves(#[trigger] definitions@[j]),
            decreases definitions.len() - k,
        {
            match self.validate_inout(&definitions[k]) {
                Ok(()) => {},
                Err(e) => {
                    proof {
                        assert(self.first_mismatch(definitions@, k as int));
                    }
                    return Err(e);
                },
            }
            k = k + 1;
        }
        let mut spent: i128 = 0;
        let mut k: usize = 0;
        while k < definitions.len()
            invariant
                k <= definitions.len(),
                self.wf(),
                all_wf(definitions@),
                self.conserved(definitions@),
                changes.wf(),
                0 <= spent,
                spent == self.total_debit(definitions@.take(k as int)),
                forall|a: Seq<char>, d: Seq<char>|
                    -spent <= #[trigger] changes.get(a, d) && changes.get(a, d) <= spent,
                forall|a: Seq<char>, d: Seq<char>| #[trigger]
                    changes.get(a, d) == self.delta(definitions@.take(k as int), a, d),
                forall|d: Seq<char>| #[trigger]
                    changes.total(d) == -self.burnt(definitions@.take(k as int), d),
            decreases definitions.len() - k,
        {
            let definition = &definitions[k];
            let ghost before = *changes;
            proof {
                lemma_take_step(definitions@, k as int);
                self.lemma_total_debit_prefix(definitions@, k + 1);
                self.lemma_debit_parts(*definition, self.inputs@);
            }
            spent = match self.process_input(definition, changes, spent) {
                Ok(total) => total,
                Err(e) => {
                    return Err(e);
                },
            };
            let ghost between = *changes;
            proof {
                assert forall|a: Seq<char>| #[trigger]
                    between.get(a, definition.denom@) + sum_amounts(
                        self.outputs@,
                        definition.denom@,
                    ) <= i128::MAX by {}
            }
            self.process_output(definition, changes);
            proof {
                assert forall|a: Seq<char>, d: Seq<char>|
                    -spent <= #[trigger] changes.get(a, d) && changes.get(a, d) <= spent by {
                    lemma_held_bounds(self.outputs@, definition.denom@, a);
                    assert(changes.get(a, d) == between.get(a, d) + (if d == definition.denom@ {
                        held_by(self.outputs@, d, a)
                    } else {
                        0
                    }));
                }
                assert forall|a: Seq<char>, d: Seq<char>| #[trigger]
                    changes.get(a, d) == self.delta(definitions@.take(k + 1), a, d) by {
                    assert(between.get(a, d) == before.get(a, d) + (if d == definition.denom@ {
                        self.input_delta(*definition, self.inputs@, a)
                    } else {
                        0
                    }));
                }
                assert forall|d: Seq<char>| #[trigger]
                    changes.total(d) == -self.burnt(definitions@.take(k + 1), d) by {
                    assert(between.total(d) == before.total(d) - (if d == definition.denom@ {
                        sum_amounts(self.inputs@, d) + self.burn_sum(*definition, self.inputs@)
                    } else {
                        0
                    }));
                }
            }
            k = k + 1;
        }
        proof {
            assert(definitions@.take(k as int) =~= definitions@);
        }
        Ok(())
    }
}

} // verus!
