//! What an account may see and remove of the payments in the ledger.

use crate::ledger::{delete_fault_of, Ledger, LedgerError, LedgerView};
use crate::payment::{Payment, PaymentView};
use vstd::prelude::*;

verus! {

/// What account `user` sees of a payment: the payment, if it is its own.
pub open spec fn visible(payment: Option<PaymentView>, user: u128) -> Option<PaymentView> {
    match payment {
        Some(p) => if p.account_id == user {
            Some(p)
        } else {
            None
        },
        None => None,
    }
}

/// Shows a payment to account `user` only if it is its own.
pub fn visible_to(payment: Option<Payment>, user: u128) -> (shown: Option<Payment>)
    ensures
        match shown {
            Some(p) => visible(
                match payment {
                    Some(q) => Some(q@),
                    None => None,
                },
                user,
            ) == Some(p@),
            None => visible(
                match payment {
                    Some(q) => Some(q@),
                    None => None,
                },
                user,
            ) is None,
        },
{
    match payment {
        Some(p) => {
            if p.account_id == user {
                Some(p)
            } else {
                None
            }
        },
        None => None,
    }
}

impl LedgerView {
    /// Payment `id`, if the ledger holds it.
    pub open spec fn lookup(self, id: u128) -> Option<PaymentView> {
        if self.has_id(id) {
            Some(self.payment(id))
        } else {
            None
        }
    }
}

/// The state of payment `payment_id`, for its owner `user`. To every other
/// account the payment is as good as absent.
pub fn status(ledger: &Ledger, user: u128, payment_id: u128) -> (shown: Option<Payment>)
    requires
        ledger@.wf(),
    ensures
        match shown {
            Some(p) => visible(ledger@.lookup(payment_id), user) == Some(p@),
            None => visible(ledger@.lookup(payment_id), user) is None,
        },
{
    visible_to(ledger.get_payment(payment_id), user)
}

/// Judges whether account `user` may delete `payment`, the payment that was
/// looked up for it: it must exist, be its own, and not have seen funds.
pub fn judge_delete(payment: &Option<Payment>, user: u128) -> (fault: Option<LedgerError>)
    ensures
        fault == delete_fault_of(
            match payment {
                Some(p) => Some(p@),
                None => None,
            },
            user,
        ),
{
    match payment {
        None => Some(LedgerError::UnknownPayment),
        Some(p) => {
            if p.account_id != user {
                Some(LedgerError::NotOwner)
            } else if p.initiated {
                Some(LedgerError::AlreadyInitiated)
            } else {
                None
            }
        },
    }
}

/// What became of a request to delete a payment.
#[derive(Debug, Clone, Copy, PartialEq, Eq, Structural)]
pub enum DeleteOutcome {
    /// The payment and its reservations are gone.
    Deleted,
    /// The requester has no such payment that could be deleted.
    NotFound,
}

/// Deletes payment `payment_id` for its owner `user`, with its
/// reservations. A payment of another account, or one that has seen funds,
/// is reported as not found and stays.
pub fn delete(ledger: &mut Ledger, user: u128, payment_id: u128) -> (outcome: DeleteOutcome)
    requires
        old(ledger)@.wf(),
    ensures
        final(ledger)@.wf(),
        match outcome {
            DeleteOutcome::Deleted => {
                &&& old(ledger)@.delete_fault(user, payment_id) is None
                &&& final(ledger)@ == old(ledger)@.deleted(old(ledger)@.index_of_id(payment_id))
            },
            DeleteOutcome::NotFound => {
                &&& old(ledger)@.delete_fault(user, payment_id) is Some
                &&& final(ledger)@ == old(ledger)@
            },
        },
{
    match ledger.delete_payment(user, payment_id) {
        Ok(()) => DeleteOutcome::Deleted,
        Err(_) => DeleteOutcome::NotFound,
    }
}

} // verus!
