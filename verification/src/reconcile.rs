//! The reconciliation loop: what one polling tick does to the ledger with the
//! unspent outputs that the chain observer reports.
//!
//! An output is credited to the payment at its address once it has enough
//! confirmations, and never twice; the first sight of an output, confirmed or
//! not, marks the payment as having seen funds. A tick ends with the expiry
//! sweep.

use crate::ledger::{Ledger, LedgerView, EXPIRY_WINDOW_SECONDS};
use crate::log::LogTypes;
use crate::payment::{Payment, PaymentView};
use vstd::prelude::*;

verus! {

/// Confirmations an output needs before it is credited.
pub const CONFIRMATIONS_REQUIRED: u32 = 1;

/// The fewest confirmations of an output that the observer reports.
pub const WATCH_MIN_CONFIRMATIONS: u32 = 0;

/// The most confirmations of an output that the observer reports: older
/// outputs are no longer acted upon.
pub const WATCH_MAX_CONFIRMATIONS: u32 = 100;

/// An unspent output as the chain observer reports it. The amount is in
/// satoshis.
#[derive(Debug, Clone, PartialEq, Eq)]
pub struct ObservedOutput {
    pub address: String,
    pub transaction_id: String,
    pub amount: u64,
    pub confirmations: u32,
}

/// The mathematical value of an [`ObservedOutput`].
pub struct OutputView {
    pub address: Seq<char>,
    pub transaction_id: Seq<char>,
    pub amount: u64,
    pub confirmations: u32,
}

impl View for ObservedOutput {
    type V = OutputView;

    open spec fn view(&self) -> OutputView {
        OutputView {
            address: self.address@,
            transaction_id: self.transaction_id@,
            amount: self.amount,
            confirmations: self.confirmations,
        }
    }
}

/// What the loop does with one observed output.
#[derive(Debug, Clone, Copy, PartialEq, Eq, Structural)]
pub enum OutputAction {
    /// Nothing: the output was credited before, no payment waits at its
    /// address, or it is still unconfirmed and was seen before.
    Skip,
    /// Mark the payment as having seen funds, and wait for confirmations.
    Initiate,
    /// Credit the output to the payment.
    Credit,
    /// Mark the payment as having seen funds and credit the output to it.
    InitiateAndCredit,
}

impl OutputAction {
    pub open spec fn initiates(self) -> bool {
        self == OutputAction::Initiate || self == OutputAction::InitiateAndCredit
    }

    pub open spec fn credits(self) -> bool {
        self == OutputAction::Credit || self == OutputAction::InitiateAndCredit
    }
}

/// What is reported to the log when the loop acts on an output.
#[derive(Debug, Clone, PartialEq, Eq)]
pub struct ReconcileEvent {
    pub kind: LogTypes,
    pub account_id: u128,
    pub payment_id: u128,
    pub transaction_id: String,
    /// For a first sight the amount asked for, for a credit the amount
    /// credited.
    pub amount: u64,
}

/// The mathematical value of a [`ReconcileEvent`].
pub struct EventView {
    pub kind: LogTypes,
    pub account_id: u128,
    pub payment_id: u128,
    pub transaction_id: Seq<char>,
    pub amount: u64,
}

impl View for ReconcileEvent {
    type V = EventView;

    open spec fn view(&self) -> EventView {
        EventView {
            kind: self.kind,
            account_id: self.account_id,
            payment_id: self.payment_id,
            transaction_id: self.transaction_id@,
            amount: self.amount,
        }
    }
}

/// The values of a list of events, in their order.
pub open spec fn event_views(events: Seq<ReconcileEvent>) -> Seq<EventView> {
    Seq::new(events.len(), |i: int| events[i]@)
}

/// The values of a list of outputs, in their order.
pub open spec fn output_views(outputs: Seq<ObservedOutput>) -> Seq<OutputView> {
    Seq::new(outputs.len(), |i: int| outputs[i]@)
}

/// What to do with an output seen with `confirmations`, given whether it was
/// credited before and which payment, if any, waits at its address.
pub open spec fn decision(
    already_processed: bool,
    payment: Option<PaymentView>,
    confirmations: u32,
    required: u32,
) -> OutputAction {
    if already_processed {
        OutputAction::Skip
    } else {
        match payment {
            None => OutputAction::Skip,
            Some(p) => if confirmations < required {
                if p.initiated {
                    OutputAction::Skip
                } else {
                    OutputAction::Initiate
                }
            } else {
                if p.initiated {
                    OutputAction::Credit
                } else {
                    OutputAction::InitiateAndCredit
                }
            },
        }
    }
}

/// Decides what to do with one observed output. The caller looks up whether
/// the output was credited before and which payment waits at its address.
pub fn decide(
    already_processed: bool,
    payment: &Option<Payment>,
    confirmations: u32,
    required: u32,
) -> (action: OutputAction)
    ensures
        action == decision(
            already_processed,
            match payment {
                Some(p) => Some(p@),
                None => None,
            },
            confirmations,
            required,
        ),
{
    if already_processed {
        return OutputAction::Skip;
    }
    match payment {
        None => OutputAction::Skip,
        Some(p) => {
            if confirmations < required {
                if p.initiated {
                    OutputAction::Skip
                } else {
                    OutputAction::Initiate
                }
            } else {
                if p.initiated {
                    OutputAction::Credit
                } else {
                    OutputAction::InitiateAndCredit
                }
            }
        },
    }
}

impl PaymentView {
    /// `self` is the payment `earlier` at a later time: what it received, its
    /// confirmations and its flags have not gone back.
    pub open spec fn not_behind(self, earlier: PaymentView) -> bool {
        &&& self.id == earlier.id
        &&& self.account_id == earlier.account_id
        &&& self.address == earlier.address
        &&& self.amount == earlier.amount
        &&& self.created_at == earlier.created_at
        &&& self.received >= earlier.received
        &&& self.confirmations >= earlier.confirmations
        &&& earlier.initiated ==> self.initiated
        &&& earlier.completed ==> self.completed
    }
}

impl LedgerView {
    /// The payment at `address`, if there is one.
    pub open spec fn waiting_at(self, address: Seq<char>) -> Option<PaymentView> {
        if self.has_address(address) {
            Some(self.payment_at(address))
        } else {
            None
        }
    }

    /// What the loop does with `output`.
    pub open spec fn action_for(self, output: OutputView, required: u32) -> OutputAction {
        decision(
            self.is_already_processed(output.transaction_id, output.address),
            self.waiting_at(output.address),
            output.confirmations,
            required,
        )
    }

    /// Whether the credit that `output` calls for can be written: what the
    /// payment has received must still fit in 64 bits.
    pub open spec fn credit_fits(self, output: OutputView) -> bool {
        self.payment_at(output.address).received + output.amount <= u64::MAX
    }

    /// The ledger after the loop has dealt with `output`.
    pub open spec fn after_output(self, output: OutputView, required: u32) -> LedgerView {
        let action = self.action_for(output, required);
        let i = self.index_of_address(output.address);
        let seen = if action.initiates() {
            self.initiated(i)
        } else {
            self
        };
        if action.credits() && self.credit_fits(output) {
            seen.credit(i, output.transaction_id, output.amount, output.confirmations)
        } else {
            seen
        }
    }

    /// What the loop reports when it deals with `output`.
    pub open spec fn events_for(self, output: OutputView, required: u32) -> Seq<EventView> {
        let action = self.action_for(output, required);
        let p = self.payment_at(output.address);
        let first = if action.initiates() {
            seq![
                EventView {
                    kind: LogTypes::PaymentReceivedUnconfirmed,
                    account_id: p.account_id,
                    payment_id: p.id,
                    transaction_id: output.transaction_id,
                    amount: p.amount,
                },
            ]
        } else {
            Seq::empty()
        };
        if action.credits() && self.credit_fits(output) {
            first.push(
                EventView {
                    kind: LogTypes::PaymentReceivedConfirmed,
                    account_id: p.account_id,
                    payment_id: p.id,
                    transaction_id: output.transaction_id,
                    amount: output.amount,
                },
            )
        } else {
            first
        }
    }

    /// The ledger after the loop has dealt with `outputs`, one after the
    /// other.
    pub open spec fn after_outputs(self, outputs: Seq<OutputView>, required: u32) -> LedgerView
        decreases outputs.len(),
    {
        if outputs.len() == 0 {
            self
        } else {
            self.after_outputs(outputs.drop_last(), required).after_output(
                outputs.last(),
                required,
            )
        }
    }

    /// What the loop reports when it deals with `outputs`, one after the
    /// other.
    pub open spec fn events_for_all(self, outputs: Seq<OutputView>, required: u32) -> Seq<
        EventView,
    >
        decreases outputs.len(),
    {
        if outputs.len() == 0 {
            Seq::empty()
        } else {
            self.events_for_all(outputs.drop_last(), required) + self.after_outputs(
                outputs.drop_last(),
                required,
            ).events_for(outputs.last(), required)
        }
    }

    /// The ledger after one tick: the outputs in their order, then the
    /// expiry sweep.
    pub open spec fn after_tick(
        self,
        outputs: Seq<OutputView>,
        required: u32,
        now: i64,
    ) -> LedgerView {
        self.after_outputs(outputs, required).swept(now)
    }

    /// Every payment of `self` that `later` still holds is not behind there.
    pub open spec fn not_ahead_of(self, later: LedgerView) -> bool {
        forall|id: u128| #[trigger]
            self.has_id(id) && later.has_id(id) ==> later.payment(id).not_behind(self.payment(id))
    }

    /// Every payment of `self` that has seen funds is still in `later`.
    pub open spec fn funded_kept_in(self, later: LedgerView) -> bool {
        forall|id: u128| #[trigger]
            self.has_id(id) && self.payment(id).initiated ==> later.has_id(id)
    }

    /// Every credit of `self` is still in `later`.
    pub open spec fn credits_kept_in(self, later: LedgerView) -> bool {
        forall|transaction_id: Seq<char>, address: Seq<char>| #[trigger]
            self.is_already_processed(transaction_id, address) ==> later.is_already_processed(
                transaction_id,
                address,
            )
    }
}

impl LedgerView {
    /// Where an output calls for an action, a payment waits at its address,
    /// in one row, and the output was not credited to it before.
    proof fn lemma_acted_row(self, output: OutputView, required: u32)
        requires
            self.wf(),
            self.action_for(output, required) != OutputAction::Skip,
        ensures
            self.address_at(output.address, self.index_of_address(output.address)),
            !self.credited_to(self.payment_at(output.address).id, output.transaction_id),
            self.action_for(output, required).credits() ==> output.confirmations >= required,
            !self.action_for(output, required).initiates() ==> self.payment_at(
                output.address,
            ).initiated,
            self.action_for(output, required).initiates() ==> !self.payment_at(
                output.address,
            ).initiated,
    {
    }

    /// Dealing with an output keeps the ledger well formed.
    pub proof fn lemma_after_output_wf(self, output: OutputView, required: u32)
        requires
            self.wf(),
        ensures
            self.after_output(output, required).wf(),
    {
        let action = self.action_for(output, required);
        if action != OutputAction::Skip {
            self.lemma_acted_row(output, required);
            let i = self.index_of_address(output.address);
            let seen = if action.initiates() {
                self.initiated(i)
            } else {
                self
            };
            if action.initiates() {
                self.lemma_initiated_wf(i);
            }
            if action.credits() && self.credit_fits(output) {
                assert forall|k: int|
                    !seen.processed_at(seen.payments[i].id, output.transaction_id, k) by {
                    assert(!self.processed_at(self.payments[i].id, output.transaction_id, k));
                }
                seen.lemma_credit_wf(
                    i,
                    output.transaction_id,
                    output.amount,
                    output.confirmations,
                );
            }
        }
    }

    /// Dealing with an output removes no payment and moves none of them
    /// back: each row is the same payment, not behind what it was.
    pub proof fn lemma_after_output_rows(self, output: OutputView, required: u32)
        requires
            self.wf(),
        ensures
            self.after_output(output, required).payments.len() == self.payments.len(),
            forall|j: int|
                0 <= j < self.payments.len() ==> (#[trigger] self.after_output(
                    output,
                    required,
                ).payments[j]).not_behind(self.payments[j]),
            forall|k: int|
                0 <= k < self.processed.len() ==> k < self.after_output(
                    output,
                    required,
                ).processed.len() && #[trigger] self.after_output(output, required).processed[k]
                    == self.processed[k],
            self.after_output(output, required).reservations == self.reservations,
    {
        let action = self.action_for(output, required);
        if action != OutputAction::Skip {
            self.lemma_acted_row(output, required);
        }
    }

    /// Where `later` has the rows of `self`, none of them behind, and keeps
    /// its credits, nothing that `self` knows is lost in `later`.
    proof fn lemma_rows_not_behind(self, later: LedgerView)
        requires
            self.wf(),
            later.wf(),
            later.payments.len() == self.payments.len(),
            forall|j: int|
                0 <= j < self.payments.len() ==> (#[trigger] later.payments[j]).not_behind(
                    self.payments[j],
                ),
            forall|k: int|
                0 <= k < self.processed.len() ==> k < later.processed.len()
                    && #[trigger] later.processed[k] == self.processed[k],
        ensures
            self.not_ahead_of(later),
            self.funded_kept_in(later),
            self.credits_kept_in(later),
            forall|id: u128| self.has_id(id) <==> later.has_id(id),
    {
        assert forall|id: u128| self.has_id(id) implies later.has_id(id) && later.payment(
            id,
        ).not_behind(self.payment(id)) by {
            let j = self.index_of_id(id);
            assert(self.id_at(id, j));
            assert(later.payments[j].not_behind(self.payments[j]));
            assert(later.id_at(id, j));
            later.lemma_row_of_id(id, j);
        }
        assert forall|id: u128| later.has_id(id) implies self.has_id(id) by {
            let j = later.index_of_id(id);
            assert(later.id_at(id, j));
            assert(later.payments[j].not_behind(self.payments[j]));
            assert(self.id_at(id, j));
        }
        assert forall|transaction_id: Seq<char>, address: Seq<char>| #[trigger]
            self.is_already_processed(
                transaction_id,
                address,
            ) implies later.is_already_processed(transaction_id, address) by {
            let j = self.index_of_address(address);
            assert(self.address_at(address, j));
            assert(later.payments[j].not_behind(self.payments[j]));
            assert(later.address_at(address, j));
            later.lemma_row_of_address(address, j);
            let id = self.payments[j].id;
            let k = choose|k: int| self.processed_at(id, transaction_id, k);
            assert(later.processed[k] == self.processed[k]);
            assert(later.processed_at(id, transaction_id, k));
        }
    }

    /// Dealing with an output moves nothing back: every payment is still
    /// there and not behind what it was, and every credit is still recorded.
    pub proof fn lemma_after_output_monotone(self, output: OutputView, required: u32)
        requires
            self.wf(),
        ensures
            self.not_ahead_of(self.after_output(output, required)),
            self.funded_kept_in(self.after_output(output, required)),
            self.credits_kept_in(self.after_output(output, required)),
            forall|id: u128| self.has_id(id) <==> self.after_output(output, required).has_id(id),
    {
        self.lemma_after_output_wf(output, required);
        self.lemma_after_output_rows(output, required);
        self.lemma_rows_not_behind(self.after_output(output, required));
    }

    /// An output that was credited before changes nothing, whatever amount
    /// and confirmations it is seen with now.
    pub proof fn lemma_processed_output_is_skipped(self, output: OutputView, required: u32)
        requires
            self.is_already_processed(output.transaction_id, output.address),
        ensures
            self.after_output(output, required) == self,
            self.events_for(output, required) == Seq::<EventView>::empty(),
    {
    }

    /// An output that is credited adds its amount to the payment at its
    /// address, once, and is recorded as processed.
    pub proof fn lemma_credit_is_recorded(self, output: OutputView, required: u32)
        requires
            self.wf(),
            self.action_for(output, required).credits(),
            self.credit_fits(output),
        ensures
            self.after_output(output, required).is_already_processed(
                output.transaction_id,
                output.address,
            ),
            self.after_output(output, required).payment_at(output.address).received
                == self.payment_at(output.address).received + output.amount,
    {
        let later = self.after_output(output, required);
        self.lemma_acted_row(output, required);
        self.lemma_after_output_wf(output, required);
        let i = self.index_of_address(output.address);
        assert(later.address_at(output.address, i));
        later.lemma_row_of_address(output.address, i);
        assert(later.processed_at(
            self.payments[i].id,
            output.transaction_id,
            self.processed.len() as int,
        ));
    }

    /// Dealing with the same output a second time changes nothing: what the
    /// first time did not credit for want of confirmations is not credited
    /// the second time either, and what it credited is not credited again.
    pub proof fn lemma_output_idempotent(self, output: OutputView, required: u32)
        requires
            self.wf(),
        ensures
            self.after_output(output, required).after_output(output, required)
                == self.after_output(output, required),
    {
        let action = self.action_for(output, required);
        let later = self.after_output(output, required);
        if action != OutputAction::Skip {
            self.lemma_acted_row(output, required);
            self.lemma_after_output_wf(output, required);
            let i = self.index_of_address(output.address);
            assert(later.address_at(output.address, i));
            later.lemma_row_of_address(output.address, i);
            if action.credits() && self.credit_fits(output) {
                self.lemma_credit_is_recorded(output, required);
            } else {
                assert forall|k: int|
                    !later.processed_at(later.payments[i].id, output.transaction_id, k) by {
                    assert(!self.processed_at(self.payments[i].id, output.transaction_id, k));
                }
                assert(later.payments[i].initiated);
                assert(later.payments[i].received == self.payments[i].received);
            }
        }
    }

    /// Dealing with the same output `times` times, once or more, leaves the
    /// ledger as dealing with it once does.
    pub proof fn lemma_output_repeated(self, output: OutputView, required: u32, times: nat)
        requires
            self.wf(),
            times >= 1,
        ensures
            self.after_outputs(Seq::new(times, |i: int| output), required) == self.after_output(
                output,
                required,
            ),
        decreases times,
    {
        let all = Seq::new(times, |i: int| output);
        let fewer = Seq::new((times - 1) as nat, |i: int| output);
        assert(all.drop_last() =~= fewer);
        assert(all.last() == output);
        if times == 1 {
            assert(self.after_outputs(fewer, required) == self);
        } else {
            self.lemma_output_repeated(output, required, (times - 1) as nat);
            self.lemma_output_idempotent(output, required);
        }
    }

    /// Dealing with a list of outputs keeps the ledger well formed and moves
    /// nothing back.
    pub proof fn lemma_after_outputs_monotone(self, outputs: Seq<OutputView>, required: u32)
        requires
            self.wf(),
        ensures
            self.after_outputs(outputs, required).wf(),
            self.not_ahead_of(self.after_outputs(outputs, required)),
            self.funded_kept_in(self.after_outputs(outputs, required)),
            self.credits_kept_in(self.after_outputs(outputs, required)),
            forall|id: u128| self.has_id(id) <==> self.after_outputs(outputs, required).has_id(id),
        decreases outputs.len(),
    {
        if outputs.len() == 0 {
            self.lemma_same_not_behind();
        } else {
            let middle = self.after_outputs(outputs.drop_last(), required);
            let later = middle.after_output(outputs.last(), required);
            self.lemma_after_outputs_monotone(outputs.drop_last(), required);
            middle.lemma_after_output_wf(outputs.last(), required);
            middle.lemma_after_output_monotone(outputs.last(), required);
            assert forall|id: u128| #[trigger]
                self.has_id(id) && later.has_id(id) implies later.payment(id).not_behind(
                self.payment(id),
            ) by {
                assert(middle.has_id(id));
                assert(middle.payment(id).not_behind(self.payment(id)));
                assert(later.payment(id).not_behind(middle.payment(id)));
            }
            assert forall|id: u128| #[trigger]
                self.has_id(id) && self.payment(id).initiated implies later.has_id(id) by {
                assert(middle.has_id(id));
            }
            assert forall|transaction_id: Seq<char>, address: Seq<char>| #[trigger]
                self.is_already_processed(
                    transaction_id,
                    address,
                ) implies later.is_already_processed(transaction_id, address) by {
                assert(middle.is_already_processed(transaction_id, address));
            }
        }
    }

    /// A ledger is not behind itself.
    proof fn lemma_same_not_behind(self)
        ensures
            self.not_ahead_of(self),
            self.funded_kept_in(self),
            self.credits_kept_in(self),
    {
    }

    /// The expiry sweep moves nothing back: it removes payments that never
    /// saw funds, and leaves every other payment, and every credit, as it was.
    pub proof fn lemma_swept_monotone(self, now: i64)
        requires
            self.wf(),
        ensures
            self.swept(now).wf(),
            self.not_ahead_of(self.swept(now)),
            self.funded_kept_in(self.swept(now)),
            self.credits_kept_in(self.swept(now)),
            forall|id: u128| #[trigger]
                self.swept(now).has_id(id) <==> self.has_id(id) && !self.payment(id).expired(
                    now,
                    EXPIRY_WINDOW_SECONDS,
                ),
            forall|id: u128| #[trigger]
                self.swept(now).has_id(id) ==> self.swept(now).payment(id) == self.payment(id),
    {
        let later = self.swept(now);
        self.lemma_swept_wf(now);
        self.lemma_swept_rows(now);
        assert forall|id: u128| #[trigger] later.has_id(id) implies self.has_id(id)
            && !self.payment(id).expired(now, EXPIRY_WINDOW_SECONDS) && later.payment(id)
            == self.payment(id) by {
            let to = later.index_of_id(id);
            assert(later.id_at(id, to));
            assert(later.payments.contains(later.payments[to]));
            let at = choose|at: int|
                0 <= at < self.payments.len() && self.payments[at] == later.payments[to];
            assert(self.id_at(id, at));
            self.lemma_row_of_id(id, at);
        }
        assert forall|id: u128|
            self.has_id(id) && !self.payment(id).expired(
                now,
                EXPIRY_WINDOW_SECONDS,
            ) implies #[trigger] later.has_id(id) by {
            self.lemma_kept_row(now, self.index_of_id(id));
            let at = self.index_of_id(id);
            assert(self.id_at(id, at));
            let to = choose|to: int|
                0 <= to < later.payments.len() && later.payments[to] == self.payments[at];
            assert(later.id_at(id, to));
        }
        assert forall|transaction_id: Seq<char>, address: Seq<char>| #[trigger]
            self.is_already_processed(
                transaction_id,
                address,
            ) implies later.is_already_processed(transaction_id, address) by {
            let at = self.index_of_address(address);
            assert(self.address_at(address, at));
            let id = self.payments[at].id;
            let k = choose|k: int| self.processed_at(id, transaction_id, k);
            assert(self.processed_ok(k));
            let funded = choose|funded: int| self.funded_row(id, funded);
            assert(self.id_at(id, at));
            self.lemma_row_of_id(id, at);
            self.lemma_row_of_id(id, funded);
            self.lemma_kept_row(now, at);
            let to = choose|to: int|
                0 <= to < later.payments.len() && later.payments[to] == self.payments[at];
            assert(later.address_at(address, to));
            later.lemma_row_of_address(address, to);
            assert(later.processed_at(id, transaction_id, k));
        }
    }

    /// A row that has not expired is among those the sweep leaves.
    proof fn lemma_kept_row(self, now: i64, at: int)
        requires
            0 <= at < self.payments.len(),
            !self.payments[at].expired(now, EXPIRY_WINDOW_SECONDS),
        ensures
            exists|to: int|
                0 <= to < self.swept(now).payments.len() && self.swept(now).payments[to]
                    == self.payments[at],
    {
        self.lemma_swept_rows(now);
        assert(self.payments.contains(self.payments[at]));
        assert(self.swept(now).payments.contains(self.payments[at]));
    }

    /// After the sweep nobody holds a name whose reservations all belonged to
    /// payments that expired: the name is free for every account again.
    pub proof fn lemma_sweep_frees_names(self, now: i64, domain: Seq<char>)
        requires
            self.wf(),
            forall|r: int|
                0 <= r < self.reservations.len() && (#[trigger] self.reservations[r]).domain
                    == domain ==> self.payment(self.reservations[r].payment_id).expired(
                    now,
                    EXPIRY_WINDOW_SECONDS,
                ),
        ensures
            forall|account_id: u128| !self.swept(now).held_by_other(domain, account_id),
    {
        let later = self.swept(now);
        self.lemma_swept_rows(now);
        assert forall|account_id: u128, to: int|
            !later.held_by_other_at(domain, account_id, to) by {
            if later.held_by_other_at(domain, account_id, to) {
                let row = later.reservations[to];
                assert(later.reservations.contains(row));
                let r = choose|r: int|
                    0 <= r < self.reservations.len() && self.reservations[r] == row;
                assert(self.reservation_ok(r));
                let at = choose|at: int| self.owned_row(row.payment_id, row.account_id, at);
                self.lemma_row_of_id(row.payment_id, at);
                assert(self.id_at(row.payment_id, at));
                assert(self.expired_ids(now).contains(row.payment_id));
            }
        }
    }

    /// One tick keeps the ledger well formed and moves nothing back: every
    /// payment that is still there has received no less, has no fewer
    /// confirmations and has kept its flags; every payment that had seen
    /// funds is still there; every credit is still recorded.
    pub proof fn lemma_after_tick_monotone(
        self,
        outputs: Seq<OutputView>,
        required: u32,
        now: i64,
    )
        requires
            self.wf(),
        ensures
            self.after_tick(outputs, required, now).wf(),
            self.not_ahead_of(self.after_tick(outputs, required, now)),
            self.funded_kept_in(self.after_tick(outputs, required, now)),
            self.credits_kept_in(self.after_tick(outputs, required, now)),
            forall|id: u128| #[trigger]
                self.after_tick(outputs, required, now).has_id(id) ==> self.has_id(id),
    {
        let middle = self.after_outputs(outputs, required);
        let later = middle.swept(now);
        self.lemma_after_outputs_monotone(outputs, required);
        middle.lemma_swept_monotone(now);
        assert forall|id: u128| #[trigger] self.has_id(id) && later.has_id(id) implies later.payment(
            id,
        ).not_behind(self.payment(id)) by {
            assert(middle.has_id(id));
            assert(middle.payment(id).not_behind(self.payment(id)));
            assert(later.payment(id) == middle.payment(id));
        }
        assert forall|id: u128| #[trigger]
            self.has_id(id) && self.payment(id).initiated implies later.has_id(id) by {
            assert(middle.has_id(id));
            assert(middle.payment(id).not_behind(self.payment(id)));
        }
        assert forall|transaction_id: Seq<char>, address: Seq<char>| #[trigger]
            self.is_already_processed(
                transaction_id,
                address,
            ) implies later.is_already_processed(transaction_id, address) by {
            assert(middle.is_already_processed(transaction_id, address));
        }
        assert forall|id: u128| #[trigger] later.has_id(id) implies self.has_id(id) by {
            assert(middle.has_id(id));
        }
    }

    /// The ledger after a series of ticks, each with its outputs and its
    /// time.
    pub open spec fn after_ticks(
        self,
        ticks: Seq<(Seq<OutputView>, i64)>,
        required: u32,
    ) -> LedgerView
        decreases ticks.len(),
    {
        if ticks.len() == 0 {
            self
        } else {
            self.after_ticks(ticks.drop_last(), required).after_tick(
                ticks.last().0,
                required,
                ticks.last().1,
            )
        }
    }

    /// Any number of ticks keep the ledger well formed and move nothing
    /// back: no payment appears, every payment that is still there is not
    /// behind what it was, every payment that had seen funds is still there,
    /// and every credit is still recorded.
    pub proof fn lemma_after_ticks_monotone(
        self,
        ticks: Seq<(Seq<OutputView>, i64)>,
        required: u32,
    )
        requires
            self.wf(),
        ensures
            self.after_ticks(ticks, required).wf(),
            self.not_ahead_of(self.after_ticks(ticks, required)),
            self.funded_kept_in(self.after_ticks(ticks, required)),
            self.credits_kept_in(self.after_ticks(ticks, required)),
            forall|id: u128| #[trigger]
                self.after_ticks(ticks, required).has_id(id) ==> self.has_id(id),
        decreases ticks.len(),
    {
        if ticks.len() == 0 {
            self.lemma_same_not_behind();
        } else {
            let middle = self.after_ticks(ticks.drop_last(), required);
            let later = middle.after_tick(ticks.last().0, required, ticks.last().1);
            self.lemma_after_ticks_monotone(ticks.drop_last(), required);
            middle.lemma_after_tick_monotone(ticks.last().0, required, ticks.last().1);
            assert forall|id: u128| #[trigger] later.has_id(id) implies self.has_id(id) by {
                assert(middle.has_id(id));
            }
            assert forall|id: u128| #[trigger]
                self.has_id(id) && later.has_id(id) implies later.payment(id).not_behind(
                self.payment(id),
            ) by {
                assert(middle.has_id(id));
                assert(middle.payment(id).not_behind(self.payment(id)));
                assert(later.payment(id).not_behind(middle.payment(id)));
            }
            assert forall|id: u128| #[trigger]
                self.has_id(id) && self.payment(id).initiated implies later.has_id(id) by {
                assert(middle.has_id(id));
                assert(middle.payment(id).not_behind(self.payment(id)));
            }
            assert forall|transaction_id: Seq<char>, address: Seq<char>| #[trigger]
                self.is_already_processed(
                    transaction_id,
                    address,
                ) implies later.is_already_processed(transaction_id, address) by {
                assert(middle.is_already_processed(transaction_id, address));
            }
        }
    }

    /// Once an output has been credited, no tick credits it again: after any
    /// number of ticks, whatever they observe, it is still recorded as
    /// processed, and seeing it once more changes nothing.
    pub proof fn lemma_credited_once_across_ticks(
        self,
        output: OutputView,
        ticks: Seq<(Seq<OutputView>, i64)>,
        required: u32,
    )
        requires
            self.wf(),
            self.is_already_processed(output.transaction_id, output.address),
        ensures
            self.after_ticks(ticks, required).is_already_processed(
                output.transaction_id,
                output.address,
            ),
            self.after_ticks(ticks, required).after_output(output, required) == self.after_ticks(
                ticks,
                required,
            ),
    {
        self.lemma_after_ticks_monotone(ticks, required);
    }
}

/// Deals with one observed output: looks up whether it was credited before
/// and which payment waits at its address, decides, and writes what was
/// decided. Returns what is to be reported to the log.
///
/// A credit that would make the amount received overflow 64 bits is not
/// written; the output is then seen again at the next tick.
pub fn process_output(ledger: &mut Ledger, output: &ObservedOutput, required: u32) -> (events: Vec<
    ReconcileEvent,
>)
    requires
        old(ledger)@.wf(),
    ensures
        final(ledger)@.wf(),
        final(ledger)@ == old(ledger)@.after_output(output@, required),
        event_views(events@) == old(ledger)@.events_for(output@, required),
{
    let ghost before = ledger@;
    let mut events: Vec<ReconcileEvent> = Vec::new();
    assert(event_views(events@) =~= Seq::empty());
    let seen = ledger.is_already_processed(
        output.transaction_id.as_str(),
        output.address.as_str(),
    );
    let waiting = ledger.get_payment_by_address(output.address.as_str());
    let action = decide(seen, &waiting, output.confirmations, required);
    assert(action == before.action_for(output@, required));
    let payment = match waiting {
        None => {
            return events;
        },
        Some(payment) => payment,
    };
    let initiates = match action {
        OutputAction::Initiate => true,
        OutputAction::InitiateAndCredit => true,
        _ => false,
    };
    let credits = match action {
        OutputAction::Credit => true,
        OutputAction::InitiateAndCredit => true,
        _ => false,
    };
    let ghost i = before.index_of_address(output@.address);
    proof {
        assert(before.address_at(output@.address, i));
        assert(before.id_at(payment.id, i));
        before.lemma_row_of_id(payment.id, i);
    }
    if initiates {
        let done = ledger.initiate_payment(payment.id);
        assert(done is Ok);
        let ghost sofar = event_views(events@);
        events.push(
            ReconcileEvent {
                kind: LogTypes::PaymentReceivedUnconfirmed,
                account_id: payment.account_id,
                payment_id: payment.id,
                transaction_id: output.transaction_id.clone(),
                amount: payment.amount,
            },
        );
        assert(event_views(events@) =~= sofar.push(events@[events@.len() - 1]@));
    }
    let ghost middle = ledger@;
    proof {
        if action != OutputAction::Skip {
            before.lemma_acted_row(output@, required);
        }
        assert(middle.id_at(payment.id, i));
        middle.lemma_row_of_id(payment.id, i);
    }
    if credits {
        proof {
            assert forall|k: int| !middle.processed_at(payment.id, output@.transaction_id, k) by {
                assert(!before.processed_at(payment.id, output@.transaction_id, k));
            }
        }
        let done = ledger.add_payment_received(
            payment.id,
            output.amount,
            output.transaction_id.as_str(),
            output.confirmations,
        );
        match done {
            Ok(()) => {
                let ghost sofar = event_views(events@);
                events.push(
                    ReconcileEvent {
                        kind: LogTypes::PaymentReceivedConfirmed,
                        account_id: payment.account_id,
                        payment_id: payment.id,
                        transaction_id: output.transaction_id.clone(),
                        amount: output.amount,
                    },
                );
                assert(event_views(events@) =~= sofar.push(events@[events@.len() - 1]@));
            },
            Err(_) => {},
        }
    }
    events
}

/// One polling tick: deals with `outputs` in their order, then runs the
/// expiry sweep at time `now`. Returns what is to be reported to the log, in
/// the order in which it happened.
pub fn process_tick(
    ledger: &mut Ledger,
    outputs: &Vec<ObservedOutput>,
    required: u32,
    now: i64,
) -> (events: Vec<ReconcileEvent>)
    requires
        old(ledger)@.wf(),
    ensures
        final(ledger)@.wf(),
        final(ledger)@ == old(ledger)@.after_tick(output_views(outputs@), required, now),
        event_views(events@) == old(ledger)@.events_for_all(output_views(outputs@), required),
{
    let ghost before = ledger@;
    let ghost seen = output_views(outputs@);
    let mut events: Vec<ReconcileEvent> = Vec::new();
    let mut i: usize = 0;
    assert(seen.take(0) =~= Seq::empty());
    assert(event_views(events@) =~= Seq::empty());
    while i < outputs.len()
        invariant
            i <= outputs.len(),
            seen == output_views(outputs@),
            ledger@.wf(),
            ledger@ == before.after_outputs(seen.take(i as int), required),
            event_views(events@) == before.events_for_all(seen.take(i as int), required),
        decreases outputs.len() - i,
    {
        assert(seen.take(i + 1).drop_last() =~= seen.take(i as int));
        assert(seen.take(i + 1).last() == outputs[i as int]@);
        let mut step = process_output(ledger, &outputs[i], required);
        let ghost sofar = event_views(events@);
        let ghost added = event_views(step@);
        events.append(&mut step);
        assert(event_views(events@) =~= sofar + added);
        i += 1;
    }
    assert(seen.take(i as int) =~= seen);
    ledger.cleanup_old_orders(now);
    events
}

} // verus!
