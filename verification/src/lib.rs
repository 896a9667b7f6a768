//! Payment reconciliation and discount pricing for paid domain registrations.
//!
//! Domains are paid for in Bitcoin. A registration request opens a payment at
//! a fresh address and reserves its names; a loop polls a node for unspent
//! outputs and credits them to the payments, each transaction once; requests
//! that never see funds are reclaimed. The price of a request depends on what
//! the buyer's wallets own.
//!
//! - [`ledger`] keeps the payments, the credited transactions and the
//!   reservations, and [`payment`] holds their records.
//! - [`reconcile`] is what one polling tick does to the ledger, and
//!   [`observer`] selects the outputs it is given.
//! - [`pricing`] quotes a price under the discounts that apply, [`discount`]
//!   finds those discounts for a buyer's holdings, [`collections`] lists the
//!   holdings, and [`fixed`] is the exact arithmetic underneath.
//! - [`request`] checks a registration request and opens its payment,
//!   [`status`] and [`domains`] answer an account's questions, and
//!   [`inscription`] writes the text that registers a domain.
//! - [`encryption`] stores texts encrypted, in hexadecimal ([`hexcode`]).
//! - [`chain`], [`log`], [`encryption_methods`], [`error`] and [`text`] are
//!   the small things the others share.
//!
//! Amounts are whole numbers of units of 10^-8: satoshis, or 10^-8 of a
//! percentage point. Times are seconds since the Unix epoch. Accounts and
//! payments are known by 128-bit numbers.

pub mod chain;
pub mod collections;
pub mod discount;
pub mod domains;
pub mod encryption;
pub mod encryption_methods;
pub mod error;
pub mod fixed;
pub mod hexcode;
pub mod inscription;
pub mod ledger;
pub mod log;
pub mod observer;
pub mod payment;
pub mod pricing;
pub mod reconcile;
pub mod request;
pub mod status;
pub mod text;
