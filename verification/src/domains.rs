//! The domains an account has paid for, or is paying for.

use crate::ledger::{Ledger, LedgerView};
use crate::payment::ReservationView;
use vstd::prelude::*;

verus! {

/// A domain of an account: its name, whether the payment it belongs to is
/// completed, and the transaction that revealed its inscription, once there
/// is one.
#[derive(Debug, Clone, PartialEq, Eq)]
pub struct PaidDomain {
    pub domain: String,
    pub payment_completed: bool,
    pub reveal_tx: Option<String>,
}

/// The mathematical value of a [`PaidDomain`].
pub struct PaidDomainView {
    pub domain: Seq<char>,
    pub payment_completed: bool,
    pub reveal_tx: Option<Seq<char>>,
}

impl View for PaidDomain {
    type V = PaidDomainView;

    open spec fn view(&self) -> PaidDomainView {
        PaidDomainView {
            domain: self.domain@,
            payment_completed: self.payment_completed,
            reveal_tx: match self.reveal_tx {
                Some(tx) => Some(tx@),
                None => None,
            },
        }
    }
}

/// The domains of an account.
#[derive(Debug, Clone, PartialEq, Eq)]
pub struct PaidDomainsResponseObject {
    pub domains: Vec<PaidDomain>,
}

impl View for PaidDomainsResponseObject {
    type V = Seq<PaidDomainView>;

    open spec fn view(&self) -> Seq<PaidDomainView> {
        Seq::new(self.domains@.len(), |i: int| self.domains@[i]@)
    }
}

/// The value of a row as the ledger hands it out.
pub open spec fn row_view(row: (String, bool, Option<String>)) -> PaidDomainView {
    PaidDomainView {
        domain: row.0@,
        payment_completed: row.1,
        reveal_tx: match row.2 {
            Some(tx) => Some(tx@),
            None => None,
        },
    }
}

/// The values of a list of rows, in their order.
pub open spec fn row_views(rows: Seq<(String, bool, Option<String>)>) -> Seq<PaidDomainView> {
    Seq::new(rows.len(), |i: int| row_view(rows[i]))
}

/// The domains of an account, from the rows that the ledger hands out: one
/// domain for each row, in their order.
pub fn paid_domains(rows: Vec<(String, bool, Option<String>)>) -> (response:
    PaidDomainsResponseObject)
    ensures
        response@ == row_views(rows@),
{
    let mut domains: Vec<PaidDomain> = Vec::new();
    let mut i: usize = 0;
    while i < rows.len()
        invariant
            i <= rows.len(),
            domains.len() == i,
            forall|k: int| 0 <= k < i ==> (#[trigger] domains[k])@ == row_view(rows[k]),
        decreases rows.len() - i,
    {
        let reveal_tx = match &rows[i].2 {
            Some(tx) => Some(tx.clone()),
            None => None,
        };
        domains.push(
            PaidDomain { domain: rows[i].0.clone(), payment_completed: rows[i].1, reveal_tx },
        );
        i += 1;
    }
    let response = PaidDomainsResponseObject { domains };
    assert(response@ =~= row_views(rows@));
    response
}

impl LedgerView {
    /// The domain that reservation `reservation` shows to its account, if it
    /// shows one: the payment it belongs to must have seen funds.
    pub open spec fn shown(self, reservation: ReservationView, account_id: u128) -> Option<
        PaidDomainView,
    > {
        if reservation.account_id == account_id && self.has_id(reservation.payment_id)
            && self.payment(reservation.payment_id).initiated {
            Some(
                PaidDomainView {
                    domain: reservation.domain,
                    payment_completed: self.payment(reservation.payment_id).completed,
                    reveal_tx: None,
                },
            )
        } else {
            None
        }
    }

    /// The domains that the first `n` reservations show to `account_id`, in
    /// their order.
    pub open spec fn owned_domains(self, account_id: u128, n: int) -> Seq<PaidDomainView>
        decreases n,
    {
        if n <= 0 {
            Seq::empty()
        } else {
            match self.shown(self.reservations[n - 1], account_id) {
                Some(domain) => self.owned_domains(account_id, n - 1).push(domain),
                None => self.owned_domains(account_id, n - 1),
            }
        }
    }
}

/// The domains of account `user`: those it reserved with a payment that has
/// seen funds, in the order in which they were reserved.
pub fn domains(ledger: &Ledger, user: u128) -> (response: PaidDomainsResponseObject)
    requires
        ledger@.wf(),
    ensures
        response@ == ledger@.owned_domains(user, ledger@.reservations.len() as int),
{
    paid_domains(ledger.get_owned_domains(user))
}

} // verus!
