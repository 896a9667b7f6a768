//! The payment ledger: every request for payment, the chain transactions that
//! were credited to it, and the domain names it holds.
//!
//! The ledger is kept in memory. Its operations are the ones the
//! reconciliation loop and the request handlers need, and each of them keeps
//! the ledger well formed ([`LedgerView::wf`]).

use crate::domains::row_views;
use crate::payment::{
    DomainReservation, Payment, PaymentView, ProcessedTransaction, ProcessedView, ReservationView,
};
use crate::text::views;
use vstd::prelude::*;

verus! {

/// Seconds after which a request that never saw funds is reclaimed: 35 minutes.
pub const EXPIRY_WINDOW_SECONDS: i64 = 2100;

/// Why the ledger refused an operation. The ledger is unchanged then.
#[derive(Clone, Copy, Debug, PartialEq, Eq, Structural)]
pub enum LedgerError {
    /// A payment with this id exists already.
    DuplicateId,
    /// A live payment already uses this address.
    AddressInUse,
    /// Another account holds one of the domain names.
    DomainReserved,
    /// No payment has this id.
    UnknownPayment,
    /// The payment belongs to another account.
    NotOwner,
    /// Funds were already seen for the payment, so it stays.
    AlreadyInitiated,
    /// No funds were seen yet for the payment.
    NotInitiated,
    /// The transaction was credited to the payment before.
    AlreadyProcessed,
    /// The amount received would no longer fit in 64 bits.
    AmountOverflow,
    /// The amount received does not cover the request yet.
    NotPaid,
}

/// The payment ledger.
pub struct Ledger {
    payments: Vec<Payment>,
    processed: Vec<ProcessedTransaction>,
    reservations: Vec<DomainReservation>,
}

/// The mathematical value of a [`Ledger`]: its three tables, each in the
/// order in which the rows were written.
pub struct LedgerView {
    pub payments: Seq<PaymentView>,
    pub processed: Seq<ProcessedView>,
    pub reservations: Seq<ReservationView>,
}

/// What has been credited to payment `id` according to the processed
/// transactions.
pub open spec fn credited(processed: Seq<ProcessedView>, id: u128) -> int
    decreases processed.len(),
{
    if processed.len() == 0 {
        0
    } else {
        credited(processed.drop_last(), id) + if processed.last().payment_id == id {
            processed.last().amount as int
        } else {
            0
        }
    }
}

/// The payments of `payments` that the expiry sweep at `now` leaves.
pub open spec fn unexpired(payments: Seq<PaymentView>, now: i64) -> Seq<PaymentView>
    decreases payments.len(),
{
    if payments.len() == 0 {
        payments
    } else if payments.last().expired(now, EXPIRY_WINDOW_SECONDS) {
        unexpired(payments.drop_last(), now)
    } else {
        unexpired(payments.drop_last(), now).push(payments.last())
    }
}

/// The reservations of `reservations` whose payment is not in `gone`.
pub open spec fn reservations_without(
    reservations: Seq<ReservationView>,
    gone: Set<u128>,
) -> Seq<ReservationView>
    decreases reservations.len(),
{
    if reservations.len() == 0 {
        reservations
    } else if gone.contains(reservations.last().payment_id) {
        reservations_without(reservations.drop_last(), gone)
    } else {
        reservations_without(reservations.drop_last(), gone).push(reservations.last())
    }
}

/// One reservation for each name of `domains`, in their order.
pub open spec fn reservations_for(
    domains: Seq<Seq<char>>,
    account_id: u128,
    payment_id: u128,
) -> Seq<ReservationView> {
    Seq::new(
        domains.len(),
        |i: int| ReservationView { domain: domains[i], account_id, payment_id },
    )
}

/// The addresses of the payments that have not seen funds, in their order.
pub open spec fn awaiting_addresses(payments: Seq<PaymentView>) -> Seq<Seq<char>>
    decreases payments.len(),
{
    if payments.len() == 0 {
        Seq::empty()
    } else if payments.last().initiated {
        awaiting_addresses(payments.drop_last())
    } else {
        awaiting_addresses(payments.drop_last()).push(payments.last().address)
    }
}

/// The ids of the payments that can be completed, in their order.
pub open spec fn completable_ids(payments: Seq<PaymentView>) -> Seq<u128>
    decreases payments.len(),
{
    if payments.len() == 0 {
        Seq::empty()
    } else if payments.last().ready_to_complete() {
        completable_ids(payments.drop_last()).push(payments.last().id)
    } else {
        completable_ids(payments.drop_last())
    }
}

/// A payment as it is when it is opened: nothing received, nothing seen.
pub open spec fn fresh_payment(
    id: u128,
    account_id: u128,
    address: Seq<char>,
    amount: u64,
    now: i64,
) -> PaymentView {
    PaymentView {
        id,
        account_id,
        address,
        amount,
        received: 0,
        confirmations: 0,
        initiated: false,
        completed: false,
        created_at: now,
    }
}

/// Why account `user` cannot delete `payment`, if it cannot: there is no
/// such payment, it belongs to another account, or it has seen funds.
pub open spec fn delete_fault_of(payment: Option<PaymentView>, user: u128) -> Option<LedgerError> {
    match payment {
        None => Some(LedgerError::UnknownPayment),
        Some(p) => if p.account_id != user {
            Some(LedgerError::NotOwner)
        } else if p.initiated {
            Some(LedgerError::AlreadyInitiated)
        } else {
            None
        },
    }
}

/// No two of `payments` share an id.
pub open spec fn distinct_ids(payments: Seq<PaymentView>) -> bool {
    forall|i: int, j: int| 0 <= i < j < payments.len() ==> payments[i].id != payments[j].id
}

/// No two of `payments` share an address.
pub open spec fn distinct_addresses(payments: Seq<PaymentView>) -> bool {
    forall|i: int, j: int|
        0 <= i < j < payments.len() ==> payments[i].address != payments[j].address
}

impl LedgerView {
    /// Row `i` of the payments has id `id`.
    pub open spec fn id_at(self, id: u128, i: int) -> bool {
        0 <= i < self.payments.len() && self.payments[i].id == id
    }

    pub open spec fn has_id(self, id: u128) -> bool {
        exists|i: int| self.id_at(id, i)
    }

    /// The row of payment `id`, where there is one.
    pub open spec fn index_of_id(self, id: u128) -> int {
        choose|i: int| self.id_at(id, i)
    }

    /// Row `i` of the payments has address `address`.
    pub open spec fn address_at(self, address: Seq<char>, i: int) -> bool {
        0 <= i < self.payments.len() && self.payments[i].address == address
    }

    pub open spec fn has_address(self, address: Seq<char>) -> bool {
        exists|i: int| self.address_at(address, i)
    }

    /// The row of the payment at `address`, where there is one.
    pub open spec fn index_of_address(self, address: Seq<char>) -> int {
        choose|i: int| self.address_at(address, i)
    }

    /// Payment `id`, where there is one.
    pub open spec fn payment(self, id: u128) -> PaymentView {
        self.payments[self.index_of_id(id)]
    }

    /// The payment at `address`, where there is one.
    pub open spec fn payment_at(self, address: Seq<char>) -> PaymentView {
        self.payments[self.index_of_address(address)]
    }

    /// Row `k` of the processed transactions credits `transaction_id` to
    /// payment `id`.
    pub open spec fn processed_at(self, id: u128, transaction_id: Seq<char>, k: int) -> bool {
        &&& 0 <= k < self.processed.len()
        &&& self.processed[k].payment_id == id
        &&& self.processed[k].transaction_id == transaction_id
    }

    /// `transaction_id` has been credited to payment `id`.
    pub open spec fn credited_to(self, id: u128, transaction_id: Seq<char>) -> bool {
        exists|k: int| self.processed_at(id, transaction_id, k)
    }

    /// `transaction_id` has been credited to the payment at `address`.
    pub open spec fn is_already_processed(
        self,
        transaction_id: Seq<char>,
        address: Seq<char>,
    ) -> bool {
        self.has_address(address) && self.credited_to(self.payment_at(address).id, transaction_id)
    }

    /// Row `r` of the reservations holds `domain` for an account other than
    /// `account_id`.
    pub open spec fn held_by_other_at(self, domain: Seq<char>, account_id: u128, r: int) -> bool {
        &&& 0 <= r < self.reservations.len()
        &&& self.reservations[r].domain == domain
        &&& self.reservations[r].account_id != account_id
    }

    /// An account other than `account_id` holds `domain`.
    pub open spec fn held_by_other(self, domain: Seq<char>, account_id: u128) -> bool {
        exists|r: int| self.held_by_other_at(domain, account_id, r)
    }

    /// The ids of the payments that the expiry sweep at `now` removes.
    pub open spec fn expired_ids(self, now: i64) -> Set<u128> {
        Set::new(
            |id: u128|
                exists|i: int|
                    self.id_at(id, i) && self.payments[i].expired(now, EXPIRY_WINDOW_SECONDS),
        )
    }

    /// Payment row `i` agrees with the other tables.
    pub open spec fn payment_ok(self, i: int) -> bool {
        let p = self.payments[i];
        &&& p.received == credited(self.processed, p.id)
        &&& p.completed ==> p.initiated && p.is_paid()
    }

    /// Row `i` is payment `id`, and funds were seen for it.
    pub open spec fn funded_row(self, id: u128, i: int) -> bool {
        self.id_at(id, i) && self.payments[i].initiated
    }

    /// Row `i` is payment `id`, and it belongs to `account_id`.
    pub open spec fn owned_row(self, id: u128, account_id: u128, i: int) -> bool {
        self.id_at(id, i) && self.payments[i].account_id == account_id
    }

    /// Processed row `k` credits a payment that exists and has seen funds.
    pub open spec fn processed_ok(self, k: int) -> bool {
        exists|i: int| self.funded_row(self.processed[k].payment_id, i)
    }

    /// Reservation row `r` belongs to a payment that exists, and to its account.
    pub open spec fn reservation_ok(self, r: int) -> bool {
        exists|i: int|
            self.owned_row(self.reservations[r].payment_id, self.reservations[r].account_id, i)
    }

    /// The ledger's invariant.
    ///
    /// No two payments share an id or an address. What a payment has
    /// received is the sum of the transactions credited to it, and no
    /// transaction is credited twice to one payment. A completed payment has
    /// seen funds that cover it. Every credit and every reservation belongs
    /// to a payment that exists, and a domain name is held by one account at
    /// most.
    pub open spec fn wf(self) -> bool {
        &&& distinct_ids(self.payments)
        &&& distinct_addresses(self.payments)
        &&& forall|i: int| 0 <= i < self.payments.len() ==> #[trigger] self.payment_ok(i)
        &&& forall|k: int| 0 <= k < self.processed.len() ==> #[trigger] self.processed_ok(k)
        &&& forall|k: int, m: int|
            0 <= k < m < self.processed.len() ==> !(self.processed[k].payment_id
                == self.processed[m].payment_id && self.processed[k].transaction_id
                == self.processed[m].transaction_id)
        &&& forall|r: int| 0 <= r < self.reservations.len() ==> #[trigger] self.reservation_ok(r)
        &&& forall|r: int, s: int|
            0 <= r < self.reservations.len() && 0 <= s < self.reservations.len()
                && self.reservations[r].domain == self.reservations[s].domain
                ==> self.reservations[r].account_id == self.reservations[s].account_id
    }

    /// The names of `names` that an account other than `account_id` holds,
    /// in their order.
    pub open spec fn conflicting(self, account_id: u128, names: Seq<Seq<char>>) -> Seq<Seq<char>>
        decreases names.len(),
    {
        if names.len() == 0 {
            Seq::empty()
        } else if self.held_by_other(names.last(), account_id) {
            self.conflicting(account_id, names.drop_last()).push(names.last())
        } else {
            self.conflicting(account_id, names.drop_last())
        }
    }

    /// Why a payment cannot be opened, if it cannot.
    pub open spec fn open_fault(
        self,
        id: u128,
        account_id: u128,
        address: Seq<char>,
        domains: Seq<Seq<char>>,
    ) -> Option<LedgerError> {
        if self.has_id(id) {
            Some(LedgerError::DuplicateId)
        } else if self.has_address(address) {
            Some(LedgerError::AddressInUse)
        } else if exists|d: int|
            0 <= d < domains.len() && self.held_by_other(#[trigger] domains[d], account_id) {
            Some(LedgerError::DomainReserved)
        } else {
            None
        }
    }

    /// Why `amount` from `transaction_id` cannot be credited to payment
    /// `id`, if it cannot.
    pub open spec fn credit_fault(
        self,
        id: u128,
        transaction_id: Seq<char>,
        amount: u64,
    ) -> Option<LedgerError> {
        if !self.has_id(id) {
            Some(LedgerError::UnknownPayment)
        } else if !self.payment(id).initiated {
            Some(LedgerError::NotInitiated)
        } else if self.credited_to(id, transaction_id) {
            Some(LedgerError::AlreadyProcessed)
        } else if self.payment(id).received + amount > u64::MAX {
            Some(LedgerError::AmountOverflow)
        } else {
            None
        }
    }

    /// Why payment `id` cannot be completed, if it cannot.
    pub open spec fn complete_fault(self, id: u128) -> Option<LedgerError> {
        if !self.has_id(id) {
            Some(LedgerError::UnknownPayment)
        } else if !self.payment(id).initiated {
            Some(LedgerError::NotInitiated)
        } else if !self.payment(id).is_paid() {
            Some(LedgerError::NotPaid)
        } else {
            None
        }
    }

    /// Why account `user` cannot delete payment `id`, if it cannot.
    pub open spec fn delete_fault(self, user: u128, id: u128) -> Option<LedgerError> {
        delete_fault_of(
            if self.has_id(id) {
                Some(self.payment(id))
            } else {
                None
            },
            user,
        )
    }

    /// The ledger with nothing in it.
    pub open spec fn empty() -> LedgerView {
        LedgerView { payments: Seq::empty(), processed: Seq::empty(), reservations: Seq::empty() }
    }

    /// The ledger after `payment` was opened for `domains`.
    pub open spec fn opened(self, payment: PaymentView, domains: Seq<Seq<char>>) -> LedgerView {
        LedgerView {
            payments: self.payments.push(payment),
            processed: self.processed,
            reservations: self.reservations + reservations_for(
                domains,
                payment.account_id,
                payment.id,
            ),
        }
    }

    /// The ledger after funds were first seen for payment row `i`.
    pub open spec fn initiated(self, i: int) -> LedgerView {
        LedgerView {
            payments: self.payments.update(
                i,
                PaymentView { initiated: true, ..self.payments[i] },
            ),
            ..self
        }
    }

    /// The ledger after `amount` from `transaction_id`, seen with
    /// `confirmations`, was credited to payment row `i`.
    pub open spec fn credit(
        self,
        i: int,
        transaction_id: Seq<char>,
        amount: u64,
        confirmations: u32,
    ) -> LedgerView {
        let p = self.payments[i];
        LedgerView {
            payments: self.payments.update(
                i,
                PaymentView {
                    received: (p.received + amount) as u64,
                    confirmations: if confirmations > p.confirmations {
                        confirmations
                    } else {
                        p.confirmations
                    },
                    ..p
                },
            ),
            processed: self.processed.push(
                ProcessedView { payment_id: p.id, transaction_id, amount },
            ),
            reservations: self.reservations,
        }
    }

    /// The ledger after payment row `i` was completed.
    pub open spec fn completed(self, i: int) -> LedgerView {
        LedgerView {
            payments: self.payments.update(
                i,
                PaymentView { completed: true, ..self.payments[i] },
            ),
            ..self
        }
    }

    /// The ledger after payment row `i` and its reservations were deleted.
    pub open spec fn deleted(self, i: int) -> LedgerView {
        LedgerView {
            payments: self.payments.remove(i),
            processed: self.processed,
            reservations: reservations_without(self.reservations, set![self.payments[i].id]),
        }
    }

    /// The ledger after the expiry sweep at `now`.
    pub open spec fn swept(self, now: i64) -> LedgerView {
        LedgerView {
            payments: unexpired(self.payments, now),
            processed: self.processed,
            reservations: reservations_without(self.reservations, self.expired_ids(now)),
        }
    }
}

/// Where no processed row names `id`, nothing was credited to it.
proof fn lemma_credited_none(processed: Seq<ProcessedView>, id: u128)
    requires
        forall|k: int| 0 <= k < processed.len() ==> processed[k].payment_id != id,
    ensures
        credited(processed, id) == 0,
    decreases processed.len(),
{
    if processed.len() > 0 {
        lemma_credited_none(processed.drop_last(), id);
    }
}

/// One more processed row adds its amount to the payment it names, and to no
/// other.
proof fn lemma_credited_push(processed: Seq<ProcessedView>, row: ProcessedView, id: u128)
    ensures
        credited(processed.push(row), id) == credited(processed, id) + if row.payment_id == id {
            row.amount as int
        } else {
            0
        },
{
    assert(processed.push(row).drop_last() =~= processed);
}

/// What the sweep leaves are exactly the rows that have not expired.
proof fn lemma_unexpired_rows(payments: Seq<PaymentView>, now: i64)
    ensures
        forall|p: PaymentView| #[trigger]
            unexpired(payments, now).contains(p) ==> payments.contains(p) && !p.expired(
                now,
                EXPIRY_WINDOW_SECONDS,
            ),
        forall|p: PaymentView| #[trigger]
            payments.contains(p) && !p.expired(now, EXPIRY_WINDOW_SECONDS) ==> unexpired(
                payments,
                now,
            ).contains(p),
    decreases payments.len(),
{
    let all = unexpired(payments, now);
    if payments.len() > 0 {
        let rest = payments.drop_last();
        let last = payments.last();
        let kept = unexpired(rest, now);
        lemma_unexpired_rows(rest, now);
        assert forall|p: PaymentView| all.contains(p) implies payments.contains(p) && !p.expired(
            now,
            EXPIRY_WINDOW_SECONDS,
        ) by {
            let j = choose|j: int| 0 <= j < all.len() && all[j] == p;
            if j < kept.len() {
                assert(kept[j] == p);
                assert(kept.contains(p));
                let i = choose|i: int| 0 <= i < rest.len() && rest[i] == p;
                assert(payments[i] == p);
            } else {
                assert(payments[payments.len() - 1] == p);
            }
        }
        assert forall|p: PaymentView|
            payments.contains(p) && !p.expired(now, EXPIRY_WINDOW_SECONDS) implies all.contains(
            p,
        ) by {
            let i = choose|i: int| 0 <= i < payments.len() && payments[i] == p;
            if i < rest.len() {
                assert(rest[i] == p);
                assert(rest.contains(p));
                let j = choose|j: int| 0 <= j < kept.len() && kept[j] == p;
                assert(all[j] == p);
            } else {
                assert(all[all.len() - 1] == p);
            }
        }
    } else {
        assert forall|p: PaymentView| !all.contains(p) by {}
    }
}

/// The sweep keeps ids and addresses apart.
proof fn lemma_unexpired_distinct(payments: Seq<PaymentView>, now: i64)
    requires
        distinct_ids(payments),
        distinct_addresses(payments),
    ensures
        distinct_ids(unexpired(payments, now)),
        distinct_addresses(unexpired(payments, now)),
    decreases payments.len(),
{
    if payments.len() > 0 {
        let rest = payments.drop_last();
        let last = payments.last();
        let kept = unexpired(rest, now);
        let all = unexpired(payments, now);
        assert(distinct_ids(rest) && distinct_addresses(rest)) by {
            assert forall|i: int, j: int| 0 <= i < j < rest.len() implies rest[i].id != rest[j].id
                && rest[i].address != rest[j].address by {
                assert(payments[i].id != payments[j].id);
                assert(payments[i].address != payments[j].address);
            }
        }
        lemma_unexpired_distinct(rest, now);
        lemma_unexpired_rows(rest, now);
        assert forall|a: int, b: int| 0 <= a < b < all.len() implies all[a].id != all[b].id
            && all[a].address != all[b].address by {
            if b < kept.len() {
                assert(kept[a].id != kept[b].id);
                assert(kept[a].address != kept[b].address);
            } else {
                assert(kept.contains(kept[a]));
                let i = choose|i: int| 0 <= i < rest.len() && rest[i] == kept[a];
                assert(payments[i].id != payments[payments.len() - 1].id);
                assert(payments[i].address != payments[payments.len() - 1].address);
            }
        }
    }
}

/// What is left of the reservations are exactly those whose payment is not in
/// `gone`.
proof fn lemma_reservations_without(reservations: Seq<ReservationView>, gone: Set<u128>)
    ensures
        forall|r: ReservationView| #[trigger]
            reservations_without(reservations, gone).contains(r) ==> reservations.contains(r)
                && !gone.contains(r.payment_id),
        forall|r: ReservationView| #[trigger]
            reservations.contains(r) && !gone.contains(r.payment_id) ==> reservations_without(
                reservations,
                gone,
            ).contains(r),
    decreases reservations.len(),
{
    let all = reservations_without(reservations, gone);
    if reservations.len() > 0 {
        let rest = reservations.drop_last();
        let kept = reservations_without(rest, gone);
        lemma_reservations_without(rest, gone);
        assert forall|r: ReservationView| all.contains(r) implies reservations.contains(r)
            && !gone.contains(r.payment_id) by {
            let j = choose|j: int| 0 <= j < all.len() && all[j] == r;
            if j < kept.len() {
                assert(kept[j] == r);
                assert(kept.contains(r));
                let i = choose|i: int| 0 <= i < rest.len() && rest[i] == r;
                assert(reservations[i] == r);
            } else {
                assert(reservations[reservations.len() - 1] == r);
            }
        }
        assert forall|r: ReservationView|
            reservations.contains(r) && !gone.contains(r.payment_id) implies all.contains(r) by {
            let i = choose|i: int| 0 <= i < reservations.len() && reservations[i] == r;
            if i < rest.len() {
                assert(rest[i] == r);
                assert(rest.contains(r));
                let j = choose|j: int| 0 <= j < kept.len() && kept[j] == r;
                assert(all[j] == r);
            } else {
                assert(all[all.len() - 1] == r);
            }
        }
    } else {
        assert forall|r: ReservationView| !all.contains(r) by {}
    }
}

impl LedgerView {
    /// In a ledger without double ids, an id names one row.
    pub proof fn lemma_row_of_id(self, id: u128, i: int)
        requires
            distinct_ids(self.payments),
            self.id_at(id, i),
        ensures
            self.has_id(id),
            self.index_of_id(id) == i,
            self.payment(id) == self.payments[i],
    {
        let j = self.index_of_id(id);
        assert(self.id_at(id, j));
        if i < j {
            assert(self.payments[i].id != self.payments[j].id);
        } else if j < i {
            assert(self.payments[j].id != self.payments[i].id);
        }
    }

    /// In a ledger without double addresses, an address names one row.
    pub proof fn lemma_row_of_address(self, address: Seq<char>, i: int)
        requires
            distinct_addresses(self.payments),
            self.address_at(address, i),
        ensures
            self.has_address(address),
            self.index_of_address(address) == i,
            self.payment_at(address) == self.payments[i],
    {
        let j = self.index_of_address(address);
        assert(self.address_at(address, j));
        if i < j {
            assert(self.payments[i].address != self.payments[j].address);
        } else if j < i {
            assert(self.payments[j].address != self.payments[i].address);
        }
    }

    /// Opening a payment under a fresh id, at a fresh address, for names that
    /// no other account holds, keeps the ledger well formed.
    pub proof fn lemma_opened_wf(self, payment: PaymentView, domains: Seq<Seq<char>>)
        requires
            self.wf(),
            !self.has_id(payment.id),
            !self.has_address(payment.address),
            payment.received == 0,
            !payment.completed,
            forall|d: int|
                0 <= d < domains.len() ==> !self.held_by_other(
                    #[trigger] domains[d],
                    payment.account_id,
                ),
        ensures
            self.opened(payment, domains).wf(),
    {
        let next = self.opened(payment, domains);
        let n = self.payments.len() as int;
        assert(distinct_ids(next.payments)) by {
            assert forall|i: int, j: int| 0 <= i < j < next.payments.len() implies next.payments[i].id
                != next.payments[j].id by {
                if j == n {
                    assert(!self.id_at(payment.id, i));
                }
            }
        }
        assert(distinct_addresses(next.payments)) by {
            assert forall|i: int, j: int|
                0 <= i < j < next.payments.len() implies next.payments[i].address
                != next.payments[j].address by {
                if j == n {
                    assert(!self.address_at(payment.address, i));
                }
            }
        }
        assert forall|i: int| 0 <= i < next.payments.len() implies #[trigger] next.payment_ok(
            i,
        ) by {
            if i < n {
                assert(self.payment_ok(i));
            } else {
                assert forall|k: int|
                    0 <= k < self.processed.len() implies self.processed[k].payment_id
                    != payment.id by {
                    assert(self.processed_ok(k));
                    let row = choose|row: int| self.funded_row(self.processed[k].payment_id, row);
                    assert(!self.id_at(payment.id, row));
                }
                lemma_credited_none(self.processed, payment.id);
            }
        }
        assert forall|k: int| 0 <= k < next.processed.len() implies #[trigger] next.processed_ok(
            k,
        ) by {
            assert(self.processed_ok(k));
            let row = choose|row: int| self.funded_row(self.processed[k].payment_id, row);
            assert(next.funded_row(next.processed[k].payment_id, row));
        }
        let m = self.reservations.len() as int;
        assert forall|r: int|
            0 <= r < next.reservations.len() implies #[trigger] next.reservation_ok(r) by {
            if r < m {
                assert(self.reservation_ok(r));
                let row = choose|row: int|
                    self.owned_row(
                        self.reservations[r].payment_id,
                        self.reservations[r].account_id,
                        row,
                    );
                assert(next.owned_row(
                    next.reservations[r].payment_id,
                    next.reservations[r].account_id,
                    row,
                ));
            } else {
                assert(next.owned_row(
                    next.reservations[r].payment_id,
                    next.reservations[r].account_id,
                    n,
                ));
            }
        }
        assert forall|r: int, s: int|
            0 <= r < next.reservations.len() && 0 <= s < next.reservations.len()
                && next.reservations[r].domain
                == next.reservations[s].domain implies next.reservations[r].account_id
            == next.reservations[s].account_id by {
            if r < m && s >= m {
                assert(!self.held_by_other(domains[s - m], payment.account_id));
                assert(!self.held_by_other_at(domains[s - m], payment.account_id, r));
            } else if s < m && r >= m {
                assert(!self.held_by_other(domains[r - m], payment.account_id));
                assert(!self.held_by_other_at(domains[r - m], payment.account_id, s));
            }
        }
    }

    /// Marking a payment as having seen funds keeps the ledger well formed.
    pub proof fn lemma_initiated_wf(self, i: int)
        requires
            self.wf(),
            0 <= i < self.payments.len(),
        ensures
            self.initiated(i).wf(),
    {
        let next = self.initiated(i);
        assert forall|j: int| 0 <= j < next.payments.len() implies #[trigger] next.payment_ok(
            j,
        ) by {
            assert(self.payment_ok(j));
        }
        self.lemma_rows_kept(next);
    }

    /// Where `next` has the rows of `self` with the same ids and accounts, and
    /// has seen funds wherever `self` has, its credits and reservations still
    /// belong to payments.
    proof fn lemma_rows_kept(self, next: LedgerView)
        requires
            self.wf(),
            next.payments.len() == self.payments.len(),
            forall|j: int|
                0 <= j < self.payments.len() ==> {
                    &&& (#[trigger] next.payments[j]).id == self.payments[j].id
                    &&& next.payments[j].account_id == self.payments[j].account_id
                    &&& next.payments[j].address == self.payments[j].address
                    &&& self.payments[j].initiated ==> next.payments[j].initiated
                },
            next.reservations == self.reservations,
            forall|k: int|
                0 <= k < self.processed.len() ==> k < next.processed.len() && next.processed[k]
                    == self.processed[k],
        ensures
            distinct_ids(next.payments),
            distinct_addresses(next.payments),
            forall|k: int| 0 <= k < self.processed.len() ==> #[trigger] next.processed_ok(k),
            forall|r: int|
                0 <= r < next.reservations.len() ==> #[trigger] next.reservation_ok(r),
    {
        assert forall|i: int, j: int| 0 <= i < j < next.payments.len() implies next.payments[i].id
            != next.payments[j].id by {
            assert(self.payments[i].id != self.payments[j].id);
        }
        assert forall|i: int, j: int|
            0 <= i < j < next.payments.len() implies next.payments[i].address
            != next.payments[j].address by {
            assert(self.payments[i].address != self.payments[j].address);
        }
        assert forall|k: int| 0 <= k < self.processed.len() implies #[trigger] next.processed_ok(
            k,
        ) by {
            assert(self.processed_ok(k));
            let row = choose|row: int| self.funded_row(self.processed[k].payment_id, row);
            assert(next.funded_row(next.processed[k].payment_id, row));
        }
        assert forall|r: int|
            0 <= r < next.reservations.len() implies #[trigger] next.reservation_ok(r) by {
            assert(self.reservation_ok(r));
            let row = choose|row: int|
                self.owned_row(
                    self.reservations[r].payment_id,
                    self.reservations[r].account_id,
                    row,
                );
            assert(next.owned_row(
                next.reservations[r].payment_id,
                next.reservations[r].account_id,
                row,
            ));
        }
    }

    /// Crediting a transaction once, to a payment that has seen funds, keeps
    /// the ledger well formed.
    pub proof fn lemma_credit_wf(
        self,
        i: int,
        transaction_id: Seq<char>,
        amount: u64,
        confirmations: u32,
    )
        requires
            self.wf(),
            0 <= i < self.payments.len(),
            self.payments[i].initiated,
            !self.credited_to(self.payments[i].id, transaction_id),
            self.payments[i].received + amount <= u64::MAX,
        ensures
            self.credit(i, transaction_id, amount, confirmations).wf(),
    {
        let next = self.credit(i, transaction_id, amount, confirmations);
        let id = self.payments[i].id;
        let row = ProcessedView { payment_id: id, transaction_id, amount };
        self.lemma_rows_kept(next);
        assert forall|j: int| 0 <= j < next.payments.len() implies #[trigger] next.payment_ok(
            j,
        ) by {
            assert(self.payment_ok(j));
            lemma_credited_push(self.processed, row, next.payments[j].id);
            if j != i {
                if j < i {
                    assert(self.payments[j].id != self.payments[i].id);
                } else {
                    assert(self.payments[i].id != self.payments[j].id);
                }
            }
        }
        let n = self.processed.len() as int;
        assert forall|k: int| 0 <= k < next.processed.len() implies #[trigger] next.processed_ok(
            k,
        ) by {
            if k == n {
                assert(next.processed[k] == row);
                assert(next.funded_row(next.processed[k].payment_id, i));
            } else {
                assert(self.processed_ok(k));
                let at = choose|at: int| self.funded_row(self.processed[k].payment_id, at);
                assert(next.funded_row(next.processed[k].payment_id, at));
            }
        }
        assert forall|k: int, m: int| 0 <= k < m < next.processed.len() implies !(
        next.processed[k].payment_id == next.processed[m].payment_id
            && next.processed[k].transaction_id == next.processed[m].transaction_id) by {
            if m == n {
                assert(!self.processed_at(id, transaction_id, k));
            }
        }
    }

    /// Completing a payment that has seen funds covering it keeps the ledger
    /// well formed.
    pub proof fn lemma_completed_wf(self, i: int)
        requires
            self.wf(),
            0 <= i < self.payments.len(),
            self.payments[i].initiated,
            self.payments[i].is_paid(),
        ensures
            self.completed(i).wf(),
    {
        let next = self.completed(i);
        assert forall|j: int| 0 <= j < next.payments.len() implies #[trigger] next.payment_ok(
            j,
        ) by {
            assert(self.payment_ok(j));
        }
        self.lemma_rows_kept(next);
    }

    /// Deleting a payment that never saw funds, with its reservations, keeps
    /// the ledger well formed.
    pub proof fn lemma_deleted_wf(self, i: int)
        requires
            self.wf(),
            0 <= i < self.payments.len(),
            !self.payments[i].initiated,
        ensures
            self.deleted(i).wf(),
    {
        let next = self.deleted(i);
        let gone = set![self.payments[i].id];
        lemma_reservations_without(self.reservations, gone);
        assert forall|a: int, b: int| 0 <= a < b < next.payments.len() implies next.payments[a].id
            != next.payments[b].id && next.payments[a].address != next.payments[b].address by {
            let a0 = if a < i { a } else { a + 1 };
            let b0 = if b < i { b } else { b + 1 };
            assert(self.payments[a0].id != self.payments[b0].id);
            assert(self.payments[a0].address != self.payments[b0].address);
        }
        assert forall|j: int| 0 <= j < next.payments.len() implies #[trigger] next.payment_ok(
            j,
        ) by {
            let j0 = if j < i { j } else { j + 1 };
            assert(self.payment_ok(j0));
        }
        assert forall|k: int| 0 <= k < next.processed.len() implies #[trigger] next.processed_ok(
            k,
        ) by {
            assert(self.processed_ok(k));
            let at = choose|at: int| self.funded_row(self.processed[k].payment_id, at);
            let to = if at < i { at } else { at - 1 };
            assert(next.funded_row(next.processed[k].payment_id, to));
        }
        assert forall|r: int|
            0 <= r < next.reservations.len() implies #[trigger] next.reservation_ok(r) by {
            let row = next.reservations[r];
            assert(next.reservations.contains(row));
            let r0 = choose|r0: int|
                0 <= r0 < self.reservations.len() && self.reservations[r0] == row;
            assert(self.reservation_ok(r0));
            let at = choose|at: int| self.owned_row(row.payment_id, row.account_id, at);
            let to = if at < i { at } else { at - 1 };
            assert(next.owned_row(row.payment_id, row.account_id, to));
        }
        assert forall|r: int, s: int|
            0 <= r < next.reservations.len() && 0 <= s < next.reservations.len()
                && next.reservations[r].domain
                == next.reservations[s].domain implies next.reservations[r].account_id
            == next.reservations[s].account_id by {
            assert(next.reservations.contains(next.reservations[r]));
            assert(next.reservations.contains(next.reservations[s]));
            let r0 = choose|r0: int|
                0 <= r0 < self.reservations.len() && self.reservations[r0] == next.reservations[r];
            let s0 = choose|s0: int|
                0 <= s0 < self.reservations.len() && self.reservations[s0] == next.reservations[s];
            assert(self.reservations[r0].account_id == self.reservations[s0].account_id);
        }
    }

    /// The expiry sweep keeps the ledger well formed.
    pub proof fn lemma_swept_wf(self, now: i64)
        requires
            self.wf(),
        ensures
            self.swept(now).wf(),
    {
        let next = self.swept(now);
        let gone = self.expired_ids(now);
        lemma_reservations_without(self.reservations, gone);
        lemma_unexpired_rows(self.payments, now);
        lemma_unexpired_distinct(self.payments, now);
        assert forall|j: int| 0 <= j < next.payments.len() implies #[trigger] next.payment_ok(
            j,
        ) by {
            assert(next.payments.contains(next.payments[j]));
            let j0 = choose|j0: int|
                0 <= j0 < self.payments.len() && self.payments[j0] == next.payments[j];
            assert(self.payment_ok(j0));
        }
        assert forall|k: int| 0 <= k < next.processed.len() implies #[trigger] next.processed_ok(
            k,
        ) by {
            assert(self.processed_ok(k));
            let at = choose|at: int| self.funded_row(self.processed[k].payment_id, at);
            assert(self.payments.contains(self.payments[at]));
            assert(next.payments.contains(self.payments[at]));
            let to = choose|to: int|
                0 <= to < next.payments.len() && next.payments[to] == self.payments[at];
            assert(next.funded_row(next.processed[k].payment_id, to));
        }
        assert forall|r: int|
            0 <= r < next.reservations.len() implies #[trigger] next.reservation_ok(r) by {
            let row = next.reservations[r];
            assert(next.reservations.contains(row));
            let r0 = choose|r0: int|
                0 <= r0 < self.reservations.len() && self.reservations[r0] == row;
            assert(self.reservation_ok(r0));
            let at = choose|at: int| self.owned_row(row.payment_id, row.account_id, at);
            if self.payments[at].expired(now, EXPIRY_WINDOW_SECONDS) {
                assert(self.id_at(row.payment_id, at));
                assert(gone.contains(row.payment_id));
            }
            assert(self.payments.contains(self.payments[at]));
            assert(next.payments.contains(self.payments[at]));
            let to = choose|to: int|
                0 <= to < next.payments.len() && next.payments[to] == self.payments[at];
            assert(next.owned_row(row.payment_id, row.account_id, to));
        }
        assert forall|r: int, s: int|
            0 <= r < next.reservations.len() && 0 <= s < next.reservations.len()
                && next.reservations[r].domain
                == next.reservations[s].domain implies next.reservations[r].account_id
            == next.reservations[s].account_id by {
            assert(next.reservations.contains(next.reservations[r]));
            assert(next.reservations.contains(next.reservations[s]));
            let r0 = choose|r0: int|
                0 <= r0 < self.reservations.len() && self.reservations[r0] == next.reservations[r];
            let s0 = choose|s0: int|
                0 <= s0 < self.reservations.len() && self.reservations[s0] == next.reservations[s];
            assert(self.reservations[r0].account_id == self.reservations[s0].account_id);
        }
    }

    /// What the expiry sweep leaves: the payments that have not expired, and
    /// the reservations of payments that have not expired.
    pub proof fn lemma_swept_rows(self, now: i64)
        ensures
            forall|p: PaymentView| #[trigger]
                self.swept(now).payments.contains(p) <==> self.payments.contains(p) && !p.expired(
                    now,
                    EXPIRY_WINDOW_SECONDS,
                ),
            forall|r: ReservationView| #[trigger]
                self.swept(now).reservations.contains(r) <==> self.reservations.contains(r)
                    && !self.expired_ids(now).contains(r.payment_id),
    {
        lemma_unexpired_rows(self.payments, now);
        lemma_reservations_without(self.reservations, self.expired_ids(now));
        assert forall|p: PaymentView| #[trigger]
            self.swept(now).payments.contains(p) <==> self.payments.contains(p) && !p.expired(
                now,
                EXPIRY_WINDOW_SECONDS,
            ) by {
            if self.payments.contains(p) && !p.expired(now, EXPIRY_WINDOW_SECONDS) {
                assert(unexpired(self.payments, now).contains(p));
            }
        }
        assert forall|r: ReservationView| #[trigger]
            self.swept(now).reservations.contains(r) <==> self.reservations.contains(r)
                && !self.expired_ids(now).contains(r.payment_id) by {
            if self.reservations.contains(r) && !self.expired_ids(now).contains(r.payment_id) {
                assert(reservations_without(self.reservations, self.expired_ids(now)).contains(r));
            }
        }
    }

    /// What a deletion leaves of the reservations: those of other payments.
    pub proof fn lemma_deleted_rows(self, i: int)
        requires
            0 <= i < self.payments.len(),
        ensures
            forall|r: ReservationView| #[trigger]
                self.deleted(i).reservations.contains(r) <==> self.reservations.contains(r)
                    && r.payment_id != self.payments[i].id,
    {
        let gone = set![self.payments[i].id];
        lemma_reservations_without(self.reservations, gone);
        assert forall|r: ReservationView| #[trigger]
            self.deleted(i).reservations.contains(r) <==> self.reservations.contains(r)
                && r.payment_id != self.payments[i].id by {
            if self.reservations.contains(r) && r.payment_id != self.payments[i].id {
                assert(!gone.contains(r.payment_id));
                assert(reservations_without(self.reservations, gone).contains(r));
            }
        }
    }

    /// The names that are refused for an account are those that another
    /// account holds: none is refused where none is held.
    pub proof fn lemma_conflicting(self, account_id: u128, names: Seq<Seq<char>>)
        ensures
            self.conflicting(account_id, names).len() == 0 <==> forall|d: int|
                0 <= d < names.len() ==> !self.held_by_other(#[trigger] names[d], account_id),
        decreases names.len(),
    {
        if names.len() > 0 {
            let fewer = names.drop_last();
            self.lemma_conflicting(account_id, fewer);
            if self.conflicting(account_id, names).len() == 0 {
                assert forall|d: int| 0 <= d < names.len() implies !self.held_by_other(
                    #[trigger] names[d],
                    account_id,
                ) by {
                    if d < fewer.len() {
                        assert(fewer[d] == names[d]);
                    }
                }
            }
            if forall|d: int|
                0 <= d < names.len() ==> !self.held_by_other(#[trigger] names[d], account_id) {
                assert forall|d: int| 0 <= d < fewer.len() implies !self.held_by_other(
                    #[trigger] fewer[d],
                    account_id,
                ) by {
                    assert(fewer[d] == names[d]);
                }
                assert(!self.held_by_other(names[names.len() - 1], account_id));
            }
        }
    }

    /// Reservations exclude each other: once an account has opened a payment
    /// for a name, no other account can open one for that name, and the name
    /// is reported as taken to every other account. Of two attempts of
    /// different accounts for one name, whichever comes second fails.
    pub proof fn lemma_reservation_exclusive(
        self,
        first: PaymentView,
        first_names: Seq<Seq<char>>,
        second_id: u128,
        second_account: u128,
        second_address: Seq<char>,
        second_names: Seq<Seq<char>>,
        name: Seq<char>,
    )
        requires
            self.wf(),
            first_names.contains(name),
            second_names.contains(name),
            second_account != first.account_id,
        ensures
            self.opened(first, first_names).open_fault(
                second_id,
                second_account,
                second_address,
                second_names,
            ) is Some,
            self.opened(first, first_names).conflicting(second_account, second_names).len() > 0,
    {
        let later = self.opened(first, first_names);
        let k = choose|k: int| 0 <= k < first_names.len() && first_names[k] == name;
        let m = choose|m: int| 0 <= m < second_names.len() && second_names[m] == name;
        let row = self.reservations.len() + k;
        assert(later.reservations[row] == ReservationView {
            domain: name,
            account_id: first.account_id,
            payment_id: first.id,
        });
        assert(later.held_by_other_at(second_names[m], second_account, row));
        assert(later.held_by_other(second_names[m], second_account));
        later.lemma_conflicting(second_account, second_names);
    }

    /// Deleting a payment frees its names: a name whose reservations all
    /// belonged to the payment is held by nobody afterwards.
    pub proof fn lemma_delete_frees_names(self, i: int, domain: Seq<char>)
        requires
            0 <= i < self.payments.len(),
            forall|r: int|
                0 <= r < self.reservations.len() && (#[trigger] self.reservations[r]).domain
                    == domain ==> self.reservations[r].payment_id == self.payments[i].id,
        ensures
            forall|account_id: u128| !self.deleted(i).held_by_other(domain, account_id),
    {
        let later = self.deleted(i);
        self.lemma_deleted_rows(i);
        assert forall|account_id: u128, to: int|
            !later.held_by_other_at(domain, account_id, to) by {
            if later.held_by_other_at(domain, account_id, to) {
                let row = later.reservations[to];
                assert(later.reservations.contains(row));
                let r = choose|r: int|
                    0 <= r < self.reservations.len() && self.reservations[r] == row;
                assert(self.reservations[r].payment_id == self.payments[i].id);
            }
        }
    }
}

impl View for Ledger {
    type V = LedgerView;

    closed spec fn view(&self) -> LedgerView {
        LedgerView {
            payments: self.payments@.map_values(|p: Payment| p@),
            processed: self.processed@.map_values(|t: ProcessedTransaction| t@),
            reservations: self.reservations@.map_values(|r: DomainReservation| r@),
        }
    }
}

impl Ledger {
    /// An empty ledger.
    pub fn new() -> (ledger: Ledger)
        ensures
            ledger@ == LedgerView::empty(),
            ledger@.wf(),
    {
        let ledger = Ledger { payments: Vec::new(), processed: Vec::new(), reservations: Vec::new() };
        assert(ledger@.payments =~= Seq::empty());
        assert(ledger@.processed =~= Seq::empty());
        assert(ledger@.reservations =~= Seq::empty());
        ledger
    }

    /// The row of payment `id`.
    fn find_id(&self, id: u128) -> (found: Option<usize>)
        ensures
            found is Some <==> self@.has_id(id),
            found matches Some(i) ==> self@.id_at(id, i as int),
    {
        let mut i: usize = 0;
        while i < self.payments.len()
            invariant
                i <= self.payments.len(),
                forall|j: int| 0 <= j < i ==> !self@.id_at(id, j),
            decreases self.payments.len() - i,
        {
            if self.payments[i].id == id {
                assert(self@.id_at(id, i as int));
                return Some(i);
            }
            i += 1;
        }
        None
    }

    /// The row of the payment at `address`.
    fn find_address(&self, address: &String) -> (found: Option<usize>)
        ensures
            found is Some <==> self@.has_address(address@),
            found matches Some(i) ==> self@.address_at(address@, i as int),
    {
        let mut i: usize = 0;
        while i < self.payments.len()
            invariant
                i <= self.payments.len(),
                forall|j: int| 0 <= j < i ==> !self@.address_at(address@, j),
            decreases self.payments.len() - i,
        {
            if self.payments[i].address == *address {
                assert(self@.address_at(address@, i as int));
                return Some(i);
            }
            i += 1;
        }
        None
    }

    /// Whether an account other than `account_id` holds `domain`.
    fn held_by_other(&self, domain: &String, account_id: u128) -> (held: bool)
        ensures
            held == self@.held_by_other(domain@, account_id),
    {
        let mut r: usize = 0;
        while r < self.reservations.len()
            invariant
                r <= self.reservations.len(),
                forall|q: int| 0 <= q < r ==> !self@.held_by_other_at(domain@, account_id, q),
            decreases self.reservations.len() - r,
        {
            if self.reservations[r].account_id != account_id && self.reservations[r].domain
                == *domain {
                assert(self@.held_by_other_at(domain@, account_id, r as int));
                return true;
            }
            r += 1;
        }
        false
    }

    /// Whether `transaction_id` has been credited to payment `id`.
    fn credited_to(&self, id: u128, transaction_id: &String) -> (seen: bool)
        ensures
            seen == self@.credited_to(id, transaction_id@),
    {
        let mut k: usize = 0;
        while k < self.processed.len()
            invariant
                k <= self.processed.len(),
                forall|q: int| 0 <= q < k ==> !self@.processed_at(id, transaction_id@, q),
            decreases self.processed.len() - k,
        {
            if self.processed[k].payment_id == id && self.processed[k].transaction_id
                == *transaction_id {
                assert(self@.processed_at(id, transaction_id@, k as int));
                return true;
            }
            k += 1;
        }
        false
    }

    /// The names of `domains` that an account other than `user` holds
    /// already, in the order of `domains`. A name that `user` holds itself is
    /// no conflict.
    pub fn get_already_owned_domains(&self, user: u128, domains: &Vec<String>) -> (taken: Vec<
        String,
    >)
        ensures
            views(taken@) == self@.conflicting(user, views(domains@)),
    {
        let mut taken: Vec<String> = Vec::new();
        let mut d: usize = 0;
        assert(views(domains@).take(0) =~= Seq::empty());
        assert(views(taken@) =~= Seq::empty());
        while d < domains.len()
            invariant
                d <= domains.len(),
                views(taken@) == self@.conflicting(user, views(domains@).take(d as int)),
            decreases domains.len() - d,
        {
            let ghost names = views(domains@);
            assert(names.take(d + 1).drop_last() =~= names.take(d as int));
            assert(names.take(d + 1).last() == domains[d as int]@);
            if self.held_by_other(&domains[d], user) {
                let ghost before = views(taken@);
                taken.push(domains[d].clone());
                assert(views(taken@) =~= before.push(domains[d as int]@));
            }
            d += 1;
        }
        assert(views(domains@).take(d as int) =~= views(domains@));
        taken
    }

    /// Opens a payment of `amount` satoshis for `account_id`, to be paid to
    /// `address`, and reserves `domains` for it, in one step.
    ///
    /// The id and the address must be new to the ledger, and no other account
    /// may hold one of the names: else nothing is written.
    pub fn create_payment(
        &mut self,
        id: u128,
        account_id: u128,
        address: &str,
        amount: u64,
        domains: &Vec<String>,
        now: i64,
    ) -> (r: Result<(), LedgerError>)
        requires
            old(self)@.wf(),
        ensures
            final(self)@.wf(),
            match r {
                Ok(()) => {
                    &&& old(self)@.open_fault(id, account_id, address@, views(domains@)) is None
                    &&& final(self)@ == old(self)@.opened(
                        fresh_payment(id, account_id, address@, amount, now),
                        views(domains@),
                    )
                },
                Err(e) => {
                    &&& old(self)@.open_fault(id, account_id, address@, views(domains@)) == Some(e)
                    &&& final(self)@ == old(self)@
                },
            },
    {
        let ghost before = self@;
        let ghost names = views(domains@);
        let key = address.to_owned();
        if self.find_id(id).is_some() {
            return Err(LedgerError::DuplicateId);
        }
        if self.find_address(&key).is_some() {
            return Err(LedgerError::AddressInUse);
        }
        let mut d: usize = 0;
        while d < domains.len()
            invariant
                d <= domains.len(),
                self@ == before,
                before.wf(),
                !before.has_id(id),
                !before.has_address(address@),
                names == views(domains@),
                forall|e: int| 0 <= e < d ==> !before.held_by_other(#[trigger] names[e], account_id),
            decreases domains.len() - d,
        {
            if self.held_by_other(&domains[d], account_id) {
                assert(before.held_by_other(names[d as int], account_id));
                return Err(LedgerError::DomainReserved);
            }
            d += 1;
        }
        let payment = Payment {
            id,
            account_id,
            address: key,
            amount,
            received: 0,
            confirmations: 0,
            initiated: false,
            completed: false,
            created_at: now,
        };
        let ghost fresh = fresh_payment(id, account_id, address@, amount, now);
        assert(payment@ == fresh);
        proof {
            before.lemma_opened_wf(fresh, names);
        }
        self.payments.push(payment);
        assert(self@.payments =~= before.payments.push(fresh));
        let mut d: usize = 0;
        assert(self@.reservations =~= before.reservations + reservations_for(
            names.take(0),
            account_id,
            id,
        ));
        while d < domains.len()
            invariant
                d <= domains.len(),
                names == views(domains@),
                before.opened(fresh, names).wf(),
                before.open_fault(id, account_id, address@, names) is None,
                self@.payments == before.payments.push(fresh),
                self@.processed == before.processed,
                self@.reservations == before.reservations + reservations_for(
                    names.take(d as int),
                    account_id,
                    id,
                ),
            decreases domains.len() - d,
        {
            let ghost sofar = self@.reservations;
            self.reservations.push(
                DomainReservation { domain: domains[d].clone(), account_id, payment_id: id },
            );
            assert(self@.reservations =~= sofar.push(
                ReservationView { domain: names[d as int], account_id, payment_id: id },
            ));
            assert(self@.reservations =~= before.reservations + reservations_for(
                names.take(d + 1),
                account_id,
                id,
            ));
            d += 1;
        }
        assert(names.take(d as int) =~= names);
        Ok(())
    }

    /// Marks payment `id` as having seen funds. Doing so again changes
    /// nothing.
    pub fn initiate_payment(&mut self, id: u128) -> (r: Result<(), LedgerError>)
        requires
            old(self)@.wf(),
        ensures
            final(self)@.wf(),
            match r {
                Ok(()) => old(self)@.has_id(id) && final(self)@ == old(self)@.initiated(
                    old(self)@.index_of_id(id),
                ),
                Err(e) => {
                    &&& !old(self)@.has_id(id)
                    &&& e == LedgerError::UnknownPayment
                    &&& final(self)@ == old(self)@
                },
            },
    {
        let ghost before = self@;
        match self.find_id(id) {
            None => Err(LedgerError::UnknownPayment),
            Some(i) => {
                proof {
                    before.lemma_row_of_id(id, i as int);
                    before.lemma_initiated_wf(i as int);
                }
                let mut payment = self.payments[i].duplicate();
                payment.initiated = true;
                self.payments.set(i, payment);
                assert(self@.payments =~= before.initiated(i as int).payments);
                Ok(())
            },
        }
    }

    /// Credits `received` satoshis from chain transaction `transaction_id`,
    /// seen with `confirmations`, to payment `id`, and records the
    /// transaction as processed, in one step.
    ///
    /// The payment must have seen funds, the transaction must be new to it,
    /// and the sum must fit: else nothing is written.
    pub fn add_payment_received(
        &mut self,
        id: u128,
        received: u64,
        transaction_id: &str,
        confirmations: u32,
    ) -> (r: Result<(), LedgerError>)
        requires
            old(self)@.wf(),
        ensures
            final(self)@.wf(),
            match r {
                Ok(()) => {
                    &&& old(self)@.credit_fault(id, transaction_id@, received) is None
                    &&& final(self)@ == old(self)@.credit(
                        old(self)@.index_of_id(id),
                        transaction_id@,
                        received,
                        confirmations,
                    )
                },
                Err(e) => {
                    &&& old(self)@.credit_fault(id, transaction_id@, received) == Some(e)
                    &&& final(self)@ == old(self)@
                },
            },
    {
        let ghost before = self@;
        let key = transaction_id.to_owned();
        let i = match self.find_id(id) {
            None => {
                return Err(LedgerError::UnknownPayment);
            },
            Some(i) => i,
        };
        proof {
            before.lemma_row_of_id(id, i as int);
        }
        if !self.payments[i].initiated {
            return Err(LedgerError::NotInitiated);
        }
        if self.credited_to(id, &key) {
            return Err(LedgerError::AlreadyProcessed);
        }
        let total = match self.payments[i].received.checked_add(received) {
            None => {
                return Err(LedgerError::AmountOverflow);
            },
            Some(total) => total,
        };
        proof {
            before.lemma_credit_wf(i as int, transaction_id@, received, confirmations);
        }
        let mut payment = self.payments[i].duplicate();
        payment.received = total;
        if confirmations > payment.confirmations {
            payment.confirmations = confirmations;
        }
        self.payments.set(i, payment);
        self.processed.push(
            ProcessedTransaction { payment_id: id, transaction_id: key, amount: received },
        );
        let ghost after = before.credit(i as int, transaction_id@, received, confirmations);
        assert(self@.payments =~= after.payments);
        assert(self@.processed =~= after.processed);
        Ok(())
    }

    /// Marks payment `id` as completed. It must have seen funds that cover
    /// the amount asked for. Doing so again changes nothing.
    pub fn complete_payment(&mut self, id: u128) -> (r: Result<(), LedgerError>)
        requires
            old(self)@.wf(),
        ensures
            final(self)@.wf(),
            match r {
                Ok(()) => {
                    &&& old(self)@.complete_fault(id) is None
                    &&& final(self)@ == old(self)@.completed(old(self)@.index_of_id(id))
                },
                Err(e) => old(self)@.complete_fault(id) == Some(e) && final(self)@ == old(self)@,
            },
    {
        let ghost before = self@;
        let i = match self.find_id(id) {
            None => {
                return Err(LedgerError::UnknownPayment);
            },
            Some(i) => i,
        };
        proof {
            before.lemma_row_of_id(id, i as int);
        }
        if !self.payments[i].initiated {
            return Err(LedgerError::NotInitiated);
        }
        if !self.payments[i].is_paid() {
            return Err(LedgerError::NotPaid);
        }
        proof {
            before.lemma_completed_wf(i as int);
        }
        let mut payment = self.payments[i].duplicate();
        payment.completed = true;
        self.payments.set(i, payment);
        assert(self@.payments =~= before.completed(i as int).payments);
        Ok(())
    }

    /// The addresses to watch: those of the payments that have not seen
    /// funds, in the order in which the payments were opened.
    pub fn get_to_be_initiated_addresses(&self) -> (addresses: Vec<String>)
        ensures
            views(addresses@) == awaiting_addresses(self@.payments),
    {
        let mut addresses: Vec<String> = Vec::new();
        let mut i: usize = 0;
        assert(self@.payments.take(0) =~= Seq::empty());
        assert(views(addresses@) =~= Seq::empty());
        while i < self.payments.len()
            invariant
                i <= self.payments.len(),
                views(addresses@) == awaiting_addresses(self@.payments.take(i as int)),
            decreases self.payments.len() - i,
        {
            assert(self@.payments.take(i + 1).drop_last() =~= self@.payments.take(i as int));
            if !self.payments[i].initiated {
                let ghost sofar = views(addresses@);
                addresses.push(self.payments[i].address.clone());
                assert(views(addresses@) =~= sofar.push(self@.payments[i as int].address));
            }
            i += 1;
        }
        assert(self@.payments.take(i as int) =~= self@.payments);
        addresses
    }

    /// The ids of the payments that can be completed: funds were seen, they
    /// cover the amount asked for, and the payment is not completed yet.
    pub fn get_to_be_completed_payments(&self) -> (ids: Vec<u128>)
        ensures
            ids@ == completable_ids(self@.payments),
    {
        let mut ids: Vec<u128> = Vec::new();
        let mut i: usize = 0;
        assert(self@.payments.take(0) =~= Seq::empty());
        while i < self.payments.len()
            invariant
                i <= self.payments.len(),
                ids@ == completable_ids(self@.payments.take(i as int)),
            decreases self.payments.len() - i,
        {
            assert(self@.payments.take(i + 1).drop_last() =~= self@.payments.take(i as int));
            if self.payments[i].ready_to_complete() {
                ids.push(self.payments[i].id);
            }
            i += 1;
        }
        assert(self@.payments.take(i as int) =~= self@.payments);
        ids
    }

    /// Payment `id`, if the ledger holds it.
    pub fn get_payment(&self, id: u128) -> (found: Option<Payment>)
        requires
            self@.wf(),
        ensures
            found is Some <==> self@.has_id(id),
            found matches Some(p) ==> p@ == self@.payment(id),
    {
        match self.find_id(id) {
            None => None,
            Some(i) => {
                proof {
                    self@.lemma_row_of_id(id, i as int);
                }
                Some(self.payments[i].duplicate())
            },
        }
    }

    /// The payment to be paid to `address`, if the ledger holds one.
    pub fn get_payment_by_address(&self, address: &str) -> (found: Option<Payment>)
        requires
            self@.wf(),
        ensures
            found is Some <==> self@.has_address(address@),
            found matches Some(p) ==> p@ == self@.payment_at(address@),
    {
        let key = address.to_owned();
        match self.find_address(&key) {
            None => None,
            Some(i) => {
                proof {
                    self@.lemma_row_of_address(address@, i as int);
                }
                Some(self.payments[i].duplicate())
            },
        }
    }

    /// Whether chain transaction `transaction_id` was credited before to the
    /// payment at `address`.
    pub fn is_already_processed(&self, transaction_id: &str, address: &str) -> (seen: bool)
        requires
            self@.wf(),
        ensures
            seen == self@.is_already_processed(transaction_id@, address@),
    {
        let key = address.to_owned();
        let transaction = transaction_id.to_owned();
        match self.find_address(&key) {
            None => false,
            Some(i) => {
                proof {
                    self@.lemma_row_of_address(address@, i as int);
                }
                self.credited_to(self.payments[i].id, &transaction)
            },
        }
    }

    /// The reservations that stay when the payments of `gone` leave, where
    /// `leaves` says of each payment row whether it is one of them.
    fn reservations_left(&self, leaves: &Vec<bool>, Ghost(gone): Ghost<Set<u128>>) -> (left: Vec<
        DomainReservation,
    >)
        requires
            self@.wf(),
            leaves.len() == self.payments.len(),
            forall|id: u128|
                gone.contains(id) <==> exists|i: int| #[trigger] self@.id_at(id, i) && leaves[i],
        ensures
            left@.map_values(|r: DomainReservation| r@) == reservations_without(
                self@.reservations,
                gone,
            ),
    {
        let mut left: Vec<DomainReservation> = Vec::new();
        let mut r: usize = 0;
        assert(self@.reservations.take(0) =~= Seq::empty());
        assert(left@.map_values(|r: DomainReservation| r@) =~= Seq::empty());
        while r < self.reservations.len()
            invariant
                r <= self.reservations.len(),
                self@.wf(),
                leaves.len() == self.payments.len(),
                forall|id: u128|
                    gone.contains(id) <==> exists|i: int|
                        #[trigger] self@.id_at(id, i) && leaves[i],
                left@.map_values(|r: DomainReservation| r@) == reservations_without(
                    self@.reservations.take(r as int),
                    gone,
                ),
            decreases self.reservations.len() - r,
        {
            assert(self@.reservations.take(r + 1).drop_last() =~= self@.reservations.take(
                r as int,
            ));
            let id = self.reservations[r].payment_id;
            let stays = match self.find_id(id) {
                None => true,
                Some(i) => {
                    proof {
                        self@.lemma_row_of_id(id, i as int);
                        if gone.contains(id) {
                            let j = choose|j: int| #[trigger] self@.id_at(id, j) && leaves[j];
                            self@.lemma_row_of_id(id, j);
                        }
                    }
                    !leaves[i]
                },
            };
            if stays {
                let ghost sofar = left@.map_values(|r: DomainReservation| r@);
                left.push(
                    DomainReservation {
                        domain: self.reservations[r].domain.clone(),
                        account_id: self.reservations[r].account_id,
                        payment_id: id,
                    },
                );
                assert(left@.map_values(|r: DomainReservation| r@) =~= sofar.push(
                    self@.reservations[r as int],
                ));
            }
            r += 1;
        }
        assert(self@.reservations.take(r as int) =~= self@.reservations);
        left
    }

    /// The expiry sweep: removes every payment that has not seen funds and
    /// was opened more than [`EXPIRY_WINDOW_SECONDS`] before `now`, together
    /// with its reservations.
    pub fn cleanup_old_orders(&mut self, now: i64)
        requires
            old(self)@.wf(),
        ensures
            final(self)@.wf(),
            final(self)@ == old(self)@.swept(now),
    {
        let ghost before = self@;
        let mut leaves: Vec<bool> = Vec::new();
        let mut kept: Vec<Payment> = Vec::new();
        let mut i: usize = 0;
        assert(before.payments.take(0) =~= Seq::empty());
        assert(kept@.map_values(|p: Payment| p@) =~= Seq::empty());
        while i < self.payments.len()
            invariant
                i <= self.payments.len(),
                self@ == before,
                leaves.len() == i,
                forall|j: int|
                    0 <= j < i ==> leaves[j] == before.payments[j].expired(
                        now,
                        EXPIRY_WINDOW_SECONDS,
                    ),
                kept@.map_values(|p: Payment| p@) == unexpired(before.payments.take(i as int), now),
            decreases self.payments.len() - i,
        {
            assert(before.payments.take(i + 1).drop_last() =~= before.payments.take(i as int));
            let gone = self.payments[i].expired(now, EXPIRY_WINDOW_SECONDS);
            leaves.push(gone);
            if !gone {
                let ghost sofar = kept@.map_values(|p: Payment| p@);
                kept.push(self.payments[i].duplicate());
                assert(kept@.map_values(|p: Payment| p@) =~= sofar.push(before.payments[i as int]));
            }
            i += 1;
        }
        assert(before.payments.take(i as int) =~= before.payments);
        let ghost gone = before.expired_ids(now);
        let left = self.reservations_left(&leaves, Ghost(gone));
        proof {
            before.lemma_swept_wf(now);
        }
        self.payments = kept;
        self.reservations = left;
        assert(self@.processed =~= before.processed);
    }

    /// Deletes payment `id` for its owner `user`, with its reservations. A
    /// payment that has seen funds stays.
    pub fn delete_payment(&mut self, user: u128, id: u128) -> (r: Result<(), LedgerError>)
        requires
            old(self)@.wf(),
        ensures
            final(self)@.wf(),
            match r {
                Ok(()) => {
                    &&& old(self)@.delete_fault(user, id) is None
                    &&& final(self)@ == old(self)@.deleted(old(self)@.index_of_id(id))
                },
                Err(e) => old(self)@.delete_fault(user, id) == Some(e) && final(self)@ == old(self)@,
            },
    {
        let ghost before = self@;
        let i = match self.find_id(id) {
            None => {
                return Err(LedgerError::UnknownPayment);
            },
            Some(i) => i,
        };
        proof {
            before.lemma_row_of_id(id, i as int);
        }
        if self.payments[i].account_id != user {
            return Err(LedgerError::NotOwner);
        }
        if self.payments[i].initiated {
            return Err(LedgerError::AlreadyInitiated);
        }
        let mut leaves: Vec<bool> = Vec::new();
        let mut j: usize = 0;
        while j < self.payments.len()
            invariant
                j <= self.payments.len(),
                self@ == before,
                leaves.len() == j,
                forall|q: int| 0 <= q < j ==> leaves[q] == (q == i),
            decreases self.payments.len() - j,
        {
            leaves.push(j == i);
            j += 1;
        }
        proof {
            assert forall|other: u128| set![id].contains(other) <==> exists|q: int| #[trigger]
                before.id_at(other, q) && leaves[q] by {
                if other == id {
                    assert(before.id_at(other, i as int) && leaves[i as int]);
                }
            }
            before.lemma_deleted_wf(i as int);
        }
        let ghost gone = set![id];
        let left = self.reservations_left(&leaves, Ghost(gone));
        self.payments.remove(i);
        self.reservations = left;
        assert(self@.payments =~= before.payments.remove(i as int));
        assert(self@.processed =~= before.processed);
        Ok(())
    }

    /// The rows that show account `account_id` its domains: for each of its
    /// reservations whose payment has seen funds, the name, whether the
    /// payment is completed, and no revealing transaction.
    pub fn get_owned_domains(&self, account_id: u128) -> (rows: Vec<(String, bool, Option<String>)>)
        requires
            self@.wf(),
        ensures
            row_views(rows@) == self@.owned_domains(
                account_id,
                self@.reservations.len() as int,
            ),
    {
        let mut rows: Vec<(String, bool, Option<String>)> = Vec::new();
        let mut r: usize = 0;
        assert(row_views(rows@) =~= Seq::empty());
        while r < self.reservations.len()
            invariant
                r <= self.reservations.len(),
                self@.wf(),
                row_views(rows@) == self@.owned_domains(account_id, r as int),
            decreases self.reservations.len() - r,
        {
            if self.reservations[r].account_id == account_id {
                let id = self.reservations[r].payment_id;
                match self.find_id(id) {
                    None => {},
                    Some(i) => {
                        proof {
                            self@.lemma_row_of_id(id, i as int);
                        }
                        if self.payments[i].initiated {
                            let ghost sofar = row_views(rows@);
                            rows.push(
                                (
                                    self.reservations[r].domain.clone(),
                                    self.payments[i].completed,
                                    None,
                                ),
                            );
                            assert(row_views(rows@) =~= sofar.push(
                                self@.shown(self@.reservations[r as int], account_id)->0,
                            ));
                        }
                    },
                }
            }
            r += 1;
        }
        rows
    }
}

} // verus!
