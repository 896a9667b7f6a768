//! The records the ledger keeps.

use vstd::prelude::*;

verus! {

/// A request for payment, as the ledger stores it. Amounts are in satoshis,
/// times in seconds since the Unix epoch.
#[derive(Debug, Clone, PartialEq, Eq)]
pub struct Payment {
    pub id: u128,
    pub account_id: u128,
    pub address: String,
    pub amount: u64,
    pub received: u64,
    pub confirmations: u32,
    pub initiated: bool,
    pub completed: bool,
    pub created_at: i64,
}

/// The mathematical value of a [`Payment`].
pub struct PaymentView {
    pub id: u128,
    pub account_id: u128,
    pub address: Seq<char>,
    pub amount: u64,
    pub received: u64,
    pub confirmations: u32,
    pub initiated: bool,
    pub completed: bool,
    pub created_at: i64,
}

impl View for Payment {
    type V = PaymentView;

    open spec fn view(&self) -> PaymentView {
        PaymentView {
            id: self.id,
            account_id: self.account_id,
            address: self.address@,
            amount: self.amount,
            received: self.received,
            confirmations: self.confirmations,
            initiated: self.initiated,
            completed: self.completed,
            created_at: self.created_at,
        }
    }
}

impl PaymentView {
    /// The amount asked for has arrived.
    pub open spec fn is_paid(self) -> bool {
        self.received >= self.amount
    }

    /// Funds were seen and cover the request, and nobody has completed it yet.
    pub open spec fn ready_to_complete(self) -> bool {
        self.initiated && !self.completed && self.is_paid()
    }

    /// No funds were ever seen and the request is older than `window` seconds.
    pub open spec fn expired(self, now: i64, window: i64) -> bool {
        !self.initiated && self.created_at + window < now
    }
}

impl Payment {
    /// An independent copy of the record.
    pub fn duplicate(&self) -> (copy: Payment)
        ensures
            copy@ == self@,
    {
        Payment {
            id: self.id,
            account_id: self.account_id,
            address: self.address.clone(),
            amount: self.amount,
            received: self.received,
            confirmations: self.confirmations,
            initiated: self.initiated,
            completed: self.completed,
            created_at: self.created_at,
        }
    }

    /// Whether the amount asked for has arrived.
    pub fn is_paid(&self) -> (paid: bool)
        ensures
            paid == self@.is_paid(),
    {
        self.received >= self.amount
    }

    /// Whether the payment can be completed now.
    pub fn ready_to_complete(&self) -> (ready: bool)
        ensures
            ready == self@.ready_to_complete(),
    {
        self.initiated && !self.completed && self.received >= self.amount
    }

    /// Whether the expiry sweep at time `now` reclaims this request.
    pub fn expired(&self, now: i64, window: i64) -> (gone: bool)
        ensures
            gone == self@.expired(now, window),
    {
        !self.initiated && (self.created_at as i128) + (window as i128) < (now as i128)
    }
}

/// Records that one chain transaction has been credited to one payment.
#[derive(Debug, Clone, PartialEq, Eq)]
pub struct ProcessedTransaction {
    pub payment_id: u128,
    pub transaction_id: String,
    pub amount: u64,
}

/// The mathematical value of a [`ProcessedTransaction`].
pub struct ProcessedView {
    pub payment_id: u128,
    pub transaction_id: Seq<char>,
    pub amount: u64,
}

impl View for ProcessedTransaction {
    type V = ProcessedView;

    open spec fn view(&self) -> ProcessedView {
        ProcessedView {
            payment_id: self.payment_id,
            transaction_id: self.transaction_id@,
            amount: self.amount,
        }
    }
}

/// Binds a domain name to the payment that was opened for it.
#[derive(Debug, Clone, PartialEq, Eq)]
pub struct DomainReservation {
    pub domain: String,
    pub account_id: u128,
    pub payment_id: u128,
}

/// The mathematical value of a [`DomainReservation`].
pub struct ReservationView {
    pub domain: Seq<char>,
    pub account_id: u128,
    pub payment_id: u128,
}

impl View for DomainReservation {
    type V = ReservationView;

    open spec fn view(&self) -> ReservationView {
        ReservationView {
            domain: self.domain@,
            account_id: self.account_id,
            payment_id: self.payment_id,
        }
    }
}

} // verus!
