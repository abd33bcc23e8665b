//! Balance changes of a multi-send transfer whose tokens carry burn and
//! commission fees.
//!
//! A transfer moves coins of several denoms from senders to receivers. Each
//! denom has an issuer and two rates: on top of what a sender sends, a part is
//! burnt and a part goes to the issuer. `calculate_balance_changes` returns by
//! how much each address changes, or why the transfer is rejected.

pub mod balance;
pub mod changes;
pub mod coin;
pub mod definition;
pub mod error;
pub mod ledger;
pub mod muldiv;
pub mod multisend;
pub mod rate;
pub mod widesum;

pub use balance::{recorded_amount, Balance, BalanceOp};
pub use changes::calculate_balance_changes;
pub use coin::{Coin, CoinOp};
pub use definition::DenomDefinition;
pub use error::Error;
pub use ledger::Ledger;
pub use multisend::MultiSend;
pub use rate::Rate;
