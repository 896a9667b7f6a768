//! The kinds of event that are written to an account's log.

use vstd::prelude::*;
use vstd::string::*;

verus! {

/// What a log entry reports.
#[derive(Debug, Clone, Copy, PartialEq, Eq, Hash, Structural)]
pub enum LogTypes {
    PaymentRequested,
    PaymentReceivedUnconfirmed,
    PaymentReceivedConfirmed,
}

impl LogTypes {
    /// The name under which the kind is stored.
    pub open spec fn name(self) -> Seq<char> {
        match self {
            LogTypes::PaymentRequested => "payment_requested"@,
            LogTypes::PaymentReceivedUnconfirmed => "payment_received_unconfirmed"@,
            LogTypes::PaymentReceivedConfirmed => "payment_received_confirmed"@,
        }
    }

    /// The kind that is stored under `name`, if there is one.
    pub open spec fn named(name: Seq<char>) -> Option<LogTypes> {
        if name == "payment_requested"@ {
            Some(LogTypes::PaymentRequested)
        } else if name == "payment_received_unconfirmed"@ {
            Some(LogTypes::PaymentReceivedUnconfirmed)
        } else if name == "payment_received_confirmed"@ {
            Some(LogTypes::PaymentReceivedConfirmed)
        } else {
            None
        }
    }

    /// The name under which the kind is stored.
    pub fn as_str(self) -> (name: &'static str)
        ensures
            name@ == self.name(),
    {
        match self {
            LogTypes::PaymentRequested => "payment_requested",
            LogTypes::PaymentReceivedUnconfirmed => "payment_received_unconfirmed",
            LogTypes::PaymentReceivedConfirmed => "payment_received_confirmed",
        }
    }

    /// The name under which the kind is stored, as an owned string.
    pub fn into_string(self) -> (name: String)
        ensures
            name@ == self.name(),
    {
        self.as_str().to_owned()
    }

    /// Reads a stored name.
    pub fn parse(value: &str) -> (kind: Option<LogTypes>)
        ensures
            kind == LogTypes::named(value@),
    {
        let value = value.to_owned();
        if value == "payment_requested".to_owned() {
            Some(LogTypes::PaymentRequested)
        } else if value == "payment_received_unconfirmed".to_owned() {
            Some(LogTypes::PaymentReceivedUnconfirmed)
        } else if value == "payment_received_confirmed".to_owned() {
            Some(LogTypes::PaymentReceivedConfirmed)
        } else {
            None
        }
    }

    /// Reads a stored name that is known to be one.
    pub fn from(value: &str) -> (kind: LogTypes)
        requires
            LogTypes::named(value@) is Some,
        ensures
            Some(kind) == LogTypes::named(value@),
    {
        match LogTypes::parse(value) {
            Some(kind) => kind,
            None => LogTypes::PaymentRequested,
        }
    }

    /// Every kind is read back from its own name.
    pub proof fn lemma_name_round_trip(self)
        ensures
            LogTypes::named(self.name()) == Some(self),
    {
        reveal_strlit("payment_requested");
        reveal_strlit("payment_received_unconfirmed");
        reveal_strlit("payment_received_confirmed");
        assert("payment_requested"@.len() == 17);
        assert("payment_received_unconfirmed"@.len() == 28);
        assert("payment_received_confirmed"@.len() == 26);
    }
}

} // verus!
