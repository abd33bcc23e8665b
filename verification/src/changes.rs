//! The balance changes of a transfer, or the reason for which it is rejected.

use vstd::prelude::*;
use crate::balance::{canonical, coin_total, non_issuer_sum, recorded, sum_amounts, Balance};
use crate::definition::{all_wf, DenomDefinition};
use crate::error::Error;
use crate::ledger::Ledger;
use crate::multisend::{held_by, MultiSend};

verus! {

/// Every address has on record at least what the transfer takes from it.
pub open spec fn solvent(
    original: Seq<Balance>,
    definitions: Seq<DenomDefinition>,
    tx: MultiSend,
) -> bool {
    forall|a: Seq<char>, d: Seq<char>| #[trigger]
        tx.delta(definitions, a, d) < 0 ==> recorded(original, a, d) + tx.delta(
            definitions,
            a,
            d,
        ) >= 0
}

/// The transfer is accepted: every definition is conserved, what is taken
/// from the senders is an amount, and every address can give what is taken
/// from it.
pub open spec fn accepted(
    original: Seq<Balance>,
    definitions: Seq<DenomDefinition>,
    tx: MultiSend,
) -> bool {
    &&& tx.conserved(definitions)
    &&& tx.total_debit(definitions) <= i128::MAX
    &&& solvent(original, definitions, tx)
}

/// The transfer is rejected with `e`. A mismatch comes before an amount that
/// cannot be held, and that before a lack of funds. A mismatch names the
/// denom of the first definition that is not conserved; a lack of funds names
/// an address and a denom of which that address has too little on record.
pub open spec fn is_rejection(
    e: Error,
    original: Seq<Balance>,
    definitions: Seq<DenomDefinition>,
    tx: MultiSend,
) -> bool {
    match e {
        Error::InputOutputMismatch { denom } => exists|k: int|
            #[trigger] tx.first_mismatch(definitions, k) && definitions[k].denom@ == denom@,
        Error::ArithmeticFailure => tx.conserved(definitions) && tx.total_debit(definitions)
            > i128::MAX,
        Error::InsufficientBalance { address, denom } => {
            &&& tx.conserved(definitions)
            &&& tx.total_debit(definitions) <= i128::MAX
            &&& tx.delta(definitions, address@, denom@) < 0
            &&& recorded(original, address@, denom@) + tx.delta(definitions, address@, denom@)
                < 0
        },
    }
}

/// `changes` lists the balance changes of the transfer: in canonical form,
/// under each address and denom the change of that address in that denom, and
/// so that the changes in a denom add up to what is burnt of it, negated.
pub open spec fn is_changes(
    changes: Seq<Balance>,
    definitions: Seq<DenomDefinition>,
    tx: MultiSend,
) -> bool {
    &&& canonical(changes)
    &&& forall|a: Seq<char>, d: Seq<char>| #[trigger]
        recorded(changes, a, d) == tx.delta(definitions, a, d)
    &&& forall|d: Seq<char>| #[trigger] coin_total(changes, d) == -tx.burnt(definitions, d)
}

/// `res` is what the transfer comes to: the error with which it is rejected,
/// or else its balance changes.
pub open spec fn is_outcome(
    res: Result<Vec<Balance>, Error>,
    original: Seq<Balance>,
    definitions: Seq<DenomDefinition>,
    tx: MultiSend,
) -> bool {
    match res {
        Ok(changes) => accepted(original, definitions, tx) && is_changes(
            changes@,
            definitions,
            tx,
        ),
        Err(e) => is_rejection(e, original, definitions, tx),
    }
}

/// The balance changes that the transfer `multi_send_tx` makes, or the reason
/// for which it must be rejected.
///
/// Only the denoms of `definitions` are looked at. The transfer is rejected
/// where the inputs and outputs of such a denom do not add up to the same,
/// where the senders would be charged more than an amount can hold, and where
/// an address would have to give more than `original_balances` has on record
/// for it. A negative change is a deduction. Changes of zero are left out.
///
/// Within one balance the first coin of a denom counts. Where several of
/// `original_balances` name one address, the last that holds the denom counts.
/// Several inputs or outputs of one address add up, and each input is charged
/// and rounded on its own.
pub fn calculate_balance_changes(
    original_balances: Vec<Balance>,
    definitions: Vec<DenomDefinition>,
    multi_send_tx: MultiSend,
) -> (res: Result<Vec<Balance>, Error>)
    requires
        multi_send_tx.wf(),
        all_wf(definitions@),
    ensures
        is_outcome(res, original_balances@, definitions@, multi_send_tx),
{
    let mut balances_changes_map = Ledger::new();
    match multi_send_tx.process(definitions.as_slice(), &mut balances_changes_map) {
        Ok(()) => {},
        Err(e) => {
            return Err(e);
        },
    }
    proof {
        assert forall|a: Seq<char>, d: Seq<char>| #[trigger]
            multi_send_tx.delta(definitions@, a, d) == balances_changes_map.get(a, d) by {}
    }
    match balances_changes_map.find_shortfall(&original_balances) {
        Some((address, denom)) => {
            return Err(Error::InsufficientBalance { address, denom });
        },
        None => {},
    }
    let balances_changes = balances_changes_map.into_balances();
    proof {
        assert forall|a: Seq<char>, d: Seq<char>| #[trigger]
            recorded(balances_changes@, a, d) == multi_send_tx.delta(definitions@, a, d) by {
            assert(balances_changes_map.get(a, d) == multi_send_tx.delta(definitions@, a, d));
        }
        assert forall|d: Seq<char>| #[trigger]
            coin_total(balances_changes@, d) == -multi_send_tx.burnt(definitions@, d) by {
            assert(balances_changes_map.total(d) == -multi_send_tx.burnt(definitions@, d));
        }
    }
    Ok(balances_changes)
}

/// No transfer is both accepted and rejected: each reason for rejection
/// excludes acceptance, and each excludes the reasons of the other kinds.
pub proof fn lemma_rejection_excludes_acceptance(
    e: Error,
    original: Seq<Balance>,
    definitions: Seq<DenomDefinition>,
    tx: MultiSend,
)
    requires
        is_rejection(e, original, definitions, tx),
    ensures
        !accepted(original, definitions, tx),
        e matches Error::InputOutputMismatch { .. } <==> !tx.conserved(definitions),
        e matches Error::ArithmeticFailure <==> tx.conserved(definitions) && tx.total_debit(
            definitions,
        ) > i128::MAX,
        e matches Error::InsufficientBalance { .. } <==> tx.conserved(definitions)
            && tx.total_debit(definitions) <= i128::MAX && !solvent(original, definitions, tx),
{
    match e {
        Error::InputOutputMismatch { denom } => {
            let k = choose|k: int|
                #[trigger] tx.first_mismatch(definitions, k) && definitions[k].denom@ == denom@;
            assert(!tx.conserves(definitions[k]));
        },
        Error::InsufficientBalance { address, denom } => {},
        Error::ArithmeticFailure => {},
    }
}

/// A transfer that does not conserve some defined denom is rejected with a
/// mismatch, whatever else holds of it.
pub proof fn lemma_mismatch_rejects(
    res: Result<Vec<Balance>, Error>,
    original: Seq<Balance>,
    definitions: Seq<DenomDefinition>,
    tx: MultiSend,
    k: int,
)
    requires
        is_outcome(res, original, definitions, tx),
        0 <= k < definitions.len(),
        sum_amounts(tx.inputs@, definitions[k].denom@) != sum_amounts(
            tx.outputs@,
            definitions[k].denom@,
        ),
    ensures
        res matches Err(Error::InputOutputMismatch { .. }),
{
    assert(!tx.conserves(definitions[k]));
}

/// What a transfer comes to is determined by its arguments: two outcomes of
/// the same arguments are errors of the same kind, a mismatch in the same
/// denom, or list the same change under every address and denom.
pub proof fn lemma_outcome_determined(
    first: Result<Vec<Balance>, Error>,
    second: Result<Vec<Balance>, Error>,
    original: Seq<Balance>,
    definitions: Seq<DenomDefinition>,
    tx: MultiSend,
)
    requires
        is_outcome(first, original, definitions, tx),
        is_outcome(second, original, definitions, tx),
    ensures
        first matches Ok(x) ==> second matches Ok(y) && (forall|a: Seq<char>, d: Seq<char>|
            recorded(x@, a, d) == recorded(y@, a, d)) && (forall|d: Seq<char>|
            coin_total(x@, d) == coin_total(y@, d)),
        first matches Err(Error::InputOutputMismatch { denom: x }) ==> second matches Err(
            Error::InputOutputMismatch { denom: y },
        ) && x@ == y@,
        first matches Err(Error::InsufficientBalance { .. }) ==> second matches Err(
            Error::InsufficientBalance { .. },
        ),
        first matches Err(Error::ArithmeticFailure) ==> second matches Err(
            Error::ArithmeticFailure,
        ),
{
    match (first, second) {
        (Ok(x), Ok(y)) => {
            assert forall|a: Seq<char>, d: Seq<char>| recorded(x@, a, d) == recorded(
                y@,
                a,
                d,
            ) by {
                assert(recorded(x@, a, d) == tx.delta(definitions, a, d));
                assert(recorded(y@, a, d) == tx.delta(definitions, a, d));
            }
            assert forall|d: Seq<char>| coin_total(x@, d) == coin_total(y@, d) by {
                assert(coin_total(x@, d) == -tx.burnt(definitions, d));
                assert(coin_total(y@, d) == -tx.burnt(definitions, d));
            }
        },
        (
            Err(Error::InputOutputMismatch { denom: x }),
            Err(Error::InputOutputMismatch { denom: y }),
        ) => {
            let j = choose|k: int|
                #[trigger] tx.first_mismatch(definitions, k) && definitions[k].denom@ == x@;
            let k = choose|k: int|
                #[trigger] tx.first_mismatch(definitions, k) && definitions[k].denom@ == y@;
            if j < k {
                assert(tx.conserves(definitions[j]));
            } else if k < j {
                assert(tx.conserves(definitions[k]));
            }
        },
        (Err(Error::InputOutputMismatch { denom }), _) => {
            let j = choose|k: int|
                #[trigger] tx.first_mismatch(definitions, k) && definitions[k].denom@ == denom@;
            assert(!tx.conserves(definitions[j]));
        },
        (_, Err(Error::InputOutputMismatch { denom })) => {
            let j = choose|k: int|
                #[trigger] tx.first_mismatch(definitions, k) && definitions[k].denom@ == denom@;
            assert(!tx.conserves(definitions[j]));
        },
        _ => {},
    }
}

/// Without fees every address changes by what it receives less what it
/// sends: under a definition whose rates are both zero no input is charged a
/// burn or a commission, whoever sends it.
pub proof fn lemma_no_rates_no_fees(tx: MultiSend, d: DenomDefinition, a: Seq<char>)
    requires
        tx.wf(),
        d.wf(),
        d.burn_rate.numer == 0,
        d.commission_rate.numer == 0,
    ensures
        forall|b: Balance| #[trigger] tx.debit(d, b) == b.amount(d.denom@),
        tx.delta_for(d, a) == held_by(tx.outputs@, d.denom@, a) - held_by(
            tx.inputs@,
            d.denom@,
            a,
        ),
{
    assert forall|b: Balance| #[trigger] tx.debit(d, b) == b.amount(d.denom@) by {
        lemma_zero_rate_fee(tx, d, d.burn_rate, b);
        lemma_zero_rate_fee(tx, d, d.commission_rate, b);
    }
    lemma_no_rates_inputs(tx, d, tx.inputs@, a);
}

proof fn lemma_zero_rate_fee(tx: MultiSend, d: DenomDefinition, rate: crate::rate::Rate, b: Balance)
    requires
        rate.wf(),
        rate.numer == 0,
    ensures
        tx.fee(d, rate, b) == 0,
{
    let n_in = tx.n_in(d);
    let n_out = tx.n_out(d);
    let num = if n_in <= n_out { n_in } else { n_out };
    let den = if n_in <= n_out { n_out } else { n_in };
    if den != 0 {
        let x = b.amount(d.denom@) * rate.numer * num;
        let y = rate.denom * den;
        assert(x == 0) by (nonlinear_arith)
            requires
                x == b.amount(d.denom@) * rate.numer * num,
                rate.numer == 0,
        ;
        assert(y != 0) by (nonlinear_arith)
            requires
                y == rate.denom * den,
                rate.denom > 0,
                den != 0,
        ;
        assert(0int % y == 0 && 0int / y == 0) by (nonlinear_arith)
            requires
                y != 0,
        ;
    }
}

proof fn lemma_no_rates_inputs(tx: MultiSend, d: DenomDefinition, inputs: Seq<Balance>, a: Seq<char>)
    requires
        d.wf(),
        d.burn_rate.numer == 0,
        d.commission_rate.numer == 0,
    ensures
        tx.commission_sum(d, inputs) == 0,
        tx.burn_sum(d, inputs) == 0,
        tx.sent_by(d, inputs, a) == held_by(inputs, d.denom@, a),
    decreases inputs.len(),
{
    if inputs.len() > 0 {
        lemma_no_rates_inputs(tx, d, inputs.drop_last(), a);
        lemma_zero_rate_fee(tx, d, d.burn_rate, inputs.last());
        lemma_zero_rate_fee(tx, d, d.commission_rate, inputs.last());
    }
}

/// The issuer is exempt: an input that it sends is charged neither burn nor
/// commission, and an entry of its own does not count towards the sum over
/// the entries of others.
pub proof fn lemma_issuer_exempt(tx: MultiSend, d: DenomDefinition, entries: Seq<Balance>, i: int)
    requires
        0 <= i < entries.len(),
        entries[i].address@ == d.issuer@,
    ensures
        tx.burn_share(d, entries[i]) == 0,
        tx.commission_share(d, entries[i]) == 0,
        tx.debit(d, entries[i]) == entries[i].amount(d.denom@),
        non_issuer_sum(entries, d) == non_issuer_sum(entries.remove(i), d),
    decreases entries.len(),
{
    if i == entries.len() - 1 {
        assert(entries.remove(i) =~= entries.drop_last());
    } else {
        lemma_issuer_exempt(tx, d, entries.drop_last(), i);
        assert(entries.remove(i).drop_last() =~= entries.drop_last().remove(i));
        assert(entries.remove(i).last() == entries.last());
    }
}

/// The commission that the senders pay is the commission that the issuer is
/// credited: what is taken from the senders beyond what they send and what is
/// burnt is, to the unit, what the inputs add to the issuer's balance.
pub proof fn lemma_commission_conserved(tx: MultiSend, d: DenomDefinition)
    requires
        tx.wf(),
        d.wf(),
    ensures
        tx.debit_sum(d, tx.inputs@) - sum_amounts(tx.inputs@, d.denom@) - tx.burn_sum(
            d,
            tx.inputs@,
        ) == tx.commission_sum(d, tx.inputs@),
        tx.input_delta(d, tx.inputs@, d.issuer@) + tx.sent_by(d, tx.inputs@, d.issuer@)
            == tx.commission_sum(d, tx.inputs@),
{
    tx.lemma_debit_parts(d, tx.inputs@);
}

} // verus!
