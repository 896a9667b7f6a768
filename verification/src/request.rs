//! What happens to a registration request before and when its payment is
//! opened: the names are normalised and checked, the targets are checked,
//! names that another account holds are refused, and the price is set.

use crate::chain::Chain;
use crate::ledger::{fresh_payment, Ledger, LedgerView};
use crate::pricing::{
    calculate_price, discount_views, quoted, DiscountView, LoyaltyDiscount, PricingError,
    DOMAIN_PRICE_BTC, MINIMUM_DOMAIN_PRICE_BTC,
};
use crate::text::{join, joined, views};
use std::str::FromStr;
use vstd::prelude::*;
use vstd::string::*;

verus! {

/// One domain of a registration request: the name to register and the address
/// that will receive it.
#[derive(Debug, Clone, PartialEq, Eq)]
pub struct CreatePaymentDataDomain {
    pub domain: String,
    pub target: String,
}

/// The mathematical value of a [`CreatePaymentDataDomain`].
pub struct DomainView {
    pub domain: Seq<char>,
    pub target: Seq<char>,
}

impl View for CreatePaymentDataDomain {
    type V = DomainView;

    open spec fn view(&self) -> DomainView {
        DomainView { domain: self.domain@, target: self.target@ }
    }
}

/// A registration request.
#[derive(Debug, Clone, PartialEq, Eq)]
pub struct CreatePaymentData {
    pub domains: Vec<CreatePaymentDataDomain>,
}

/// What the requester is told about the payment that was opened.
#[derive(Debug, Clone, PartialEq, Eq)]
pub struct CreatePaymentResponseObject {
    pub id: u128,
    pub address: String,
    /// The amount to pay, in satoshis.
    pub amount: u64,
}

/// The values of a list of domains, in their order.
pub open spec fn domain_views(domains: Seq<CreatePaymentDataDomain>) -> Seq<DomainView> {
    Seq::new(domains.len(), |i: int| domains[i]@)
}

/// The names of a list of domains, in their order.
pub open spec fn names_of(domains: Seq<DomainView>) -> Seq<Seq<char>> {
    Seq::new(domains.len(), |i: int| domains[i].domain)
}

/// The pattern a normalised domain name has to match.
pub const DOMAIN_REGEX: &'static str = "^[a-z\\d](?:[a-z\\d-]{0,251}[a-z\\d])?\\.?o?$";

/// What `regex::Regex::new(pattern)` followed by `is_match(haystack)` gives:
/// `None` where the pattern does not compile, else whether the haystack matches.
pub uninterp spec fn regex_match(pattern: Seq<char>, haystack: Seq<char>) -> Option<bool>;

/// Compiles `pattern` with `regex::Regex::new` and tests `haystack` with
/// `Regex::is_match`. The contract only names the outcome: nothing is claimed
/// about which strings a pattern accepts.
#[verifier::external_body]
fn regex_is_match(pattern: &str, haystack: &str) -> (r: Option<bool>)
    ensures
        r == regex_match(pattern@, haystack@),
{
    match regex::Regex::new(pattern) {
        Ok(re) => Some(re.is_match(haystack)),
        Err(_) => None,
    }
}

/// Whether `name` is an acceptable domain name.
pub open spec fn valid_domain(name: Seq<char>) -> bool {
    regex_match(DOMAIN_REGEX@, name) == Some(true)
}

/// Tests a normalised domain name against [`DOMAIN_REGEX`].
pub fn is_valid_domain(name: &str) -> (ok: bool)
    ensures
        ok == valid_domain(name@),
{
    match regex_is_match(DOMAIN_REGEX, name) {
        Some(ok) => ok,
        None => false,
    }
}

/// What the check of a target address finds.
#[derive(Debug, Clone, Copy, PartialEq, Eq, Structural)]
pub enum AddressCheck {
    /// An address of the network that is asked for.
    Valid,
    /// An address, but of another network.
    WrongNetwork,
    /// No address at all.
    Unparsable,
}

/// What parsing `target` as a Bitcoin address and requiring the network of
/// `chain` gives.
pub uninterp spec fn address_check(target: Seq<char>, chain: Chain) -> AddressCheck;

/// Parses `target` with `bitcoin::Address::from_str` and asks for the
/// network of `chain` with `Address::require_network`. The contract only
/// names the outcome.
#[verifier::external_body]
fn check_address(target: &str, chain: Chain) -> (r: AddressCheck)
    ensures
        r == address_check(target@, chain),
{
    let network = match chain {
        Chain::Mainnet => bitcoincore_rpc::bitcoin::Network::Bitcoin,
        Chain::Testnet => bitcoincore_rpc::bitcoin::Network::Testnet,
        Chain::Regtest => bitcoincore_rpc::bitcoin::Network::Regtest,
    };
    match bitcoincore_rpc::bitcoin::Address::from_str(target) {
        Ok(address) => match address.require_network(network) {
            Ok(_) => AddressCheck::Valid,
            Err(_) => AddressCheck::WrongNetwork,
        },
        Err(_) => AddressCheck::Unparsable,
    }
}

/// What is wrong with a domain of a request.
#[derive(Debug, Clone, Copy, PartialEq, Eq, Structural)]
pub enum DomainFault {
    /// The name does not match [`DOMAIN_REGEX`].
    InvalidDomain,
    /// The target is an address of another network.
    WrongNetwork,
    /// The target is no address.
    InvalidTarget,
}

/// What is wrong with a domain, given whether its name is valid and what
/// the check of its target found. The name is judged first.
pub open spec fn fault_of(valid_name: bool, target: AddressCheck) -> Option<DomainFault> {
    if !valid_name {
        Some(DomainFault::InvalidDomain)
    } else {
        match target {
            AddressCheck::Valid => None,
            AddressCheck::WrongNetwork => Some(DomainFault::WrongNetwork),
            AddressCheck::Unparsable => Some(DomainFault::InvalidTarget),
        }
    }
}

/// Judges a domain from what the checks of its name and of its target found.
pub fn judge_domain(valid_name: bool, target: AddressCheck) -> (fault: Option<DomainFault>)
    ensures
        fault == fault_of(valid_name, target),
{
    if !valid_name {
        Some(DomainFault::InvalidDomain)
    } else {
        match target {
            AddressCheck::Valid => None,
            AddressCheck::WrongNetwork => Some(DomainFault::WrongNetwork),
            AddressCheck::Unparsable => Some(DomainFault::InvalidTarget),
        }
    }
}

/// What is wrong with a normalised domain on `chain`, if anything is.
pub open spec fn domain_fault(domain: DomainView, chain: Chain) -> Option<DomainFault> {
    fault_of(valid_domain(domain.domain), address_check(domain.target, chain))
}

/// Checks a normalised domain: its name, and then its target.
pub fn check_domain(domain: &CreatePaymentDataDomain, chain: Chain) -> (fault: Option<
    DomainFault,
>)
    ensures
        fault == domain_fault(domain@, chain),
{
    if !is_valid_domain(domain.domain.as_str()) {
        return judge_domain(false, AddressCheck::Valid);
    }
    judge_domain(true, check_address(domain.target.as_str(), chain))
}

/// `name` ends in `.o`.
pub open spec fn has_suffix(name: Seq<char>) -> bool {
    name.len() >= 2 && name[name.len() - 2] == '.' && name[name.len() - 1] == 'o'
}

/// `name` with the suffix `.o`, which is added where it is missing.
pub open spec fn normalized_name(name: Seq<char>) -> Seq<char> {
    if has_suffix(name) {
        name
    } else {
        name + ".o"@
    }
}

/// The domains of a request as they are registered: those without a name
/// are left out, and every name ends in `.o`.
pub open spec fn normalized(domains: Seq<DomainView>) -> Seq<DomainView>
    decreases domains.len(),
{
    if domains.len() == 0 {
        Seq::empty()
    } else if domains.last().domain.len() == 0 {
        normalized(domains.drop_last())
    } else {
        normalized(domains.drop_last()).push(
            DomainView {
                domain: normalized_name(domains.last().domain),
                target: domains.last().target,
            },
        )
    }
}

/// `name` with the suffix `.o`.
pub fn normalize_name(name: &str) -> (normal: String)
    ensures
        normal@ == normalized_name(name@),
{
    let len = name.unicode_len();
    if len >= 2 && name.get_char(len - 2) == '.' && name.get_char(len - 1) == 'o' {
        name.to_owned()
    } else {
        let mut normal = name.to_owned();
        normal.append(".o");
        normal
    }
}

/// The domains of `data` as they are registered.
pub fn normalize(data: &CreatePaymentData) -> (domains: Vec<CreatePaymentDataDomain>)
    ensures
        domain_views(domains@) == normalized(domain_views(data.domains@)),
{
    let ghost all = domain_views(data.domains@);
    let mut domains: Vec<CreatePaymentDataDomain> = Vec::new();
    let mut i: usize = 0;
    assert(all.take(0) =~= Seq::empty());
    assert(domain_views(domains@) =~= Seq::empty());
    while i < data.domains.len()
        invariant
            i <= data.domains.len(),
            all == domain_views(data.domains@),
            domain_views(domains@) == normalized(all.take(i as int)),
        decreases data.domains.len() - i,
    {
        assert(all.take(i + 1).drop_last() =~= all.take(i as int));
        assert(all.take(i + 1).last() == data.domains[i as int]@);
        if !data.domains[i].domain.as_str().is_empty() {
            let ghost sofar = domain_views(domains@);
            domains.push(
                CreatePaymentDataDomain {
                    domain: normalize_name(data.domains[i].domain.as_str()),
                    target: data.domains[i].target.clone(),
                },
            );
            assert(domain_views(domains@) =~= sofar.push(
                DomainView {
                    domain: normalized_name(all[i as int].domain),
                    target: all[i as int].target,
                },
            ));
        }
        i += 1;
    }
    assert(all.take(i as int) =~= all);
    domains
}

/// Why a request is refused.
#[derive(Debug, Clone, PartialEq, Eq)]
pub enum RequestError {
    /// The request names no domain.
    NoDomains,
    /// A name does not match [`DOMAIN_REGEX`].
    InvalidDomain { domain: String },
    /// A target is an address of another network than `chain`.
    WrongNetwork { target: String, domain: String, chain: Chain },
    /// A target is no address.
    InvalidTarget { target: String, domain: String },
    /// Another account holds some of the names.
    AlreadyOwned { domains: Vec<String> },
    /// No price could be set.
    Pricing { fault: PricingError },
    /// The ledger did not take the payment.
    NotStored,
}

/// The mathematical value of a [`RequestError`].
pub enum RequestErrorView {
    NoDomains,
    InvalidDomain { domain: Seq<char> },
    WrongNetwork { target: Seq<char>, domain: Seq<char>, chain: Chain },
    InvalidTarget { target: Seq<char>, domain: Seq<char> },
    AlreadyOwned { domains: Seq<Seq<char>> },
    Pricing { fault: PricingError },
    NotStored,
}

impl View for RequestError {
    type V = RequestErrorView;

    open spec fn view(&self) -> RequestErrorView {
        match self {
            RequestError::NoDomains => RequestErrorView::NoDomains,
            RequestError::InvalidDomain { domain } => RequestErrorView::InvalidDomain {
                domain: domain@,
            },
            RequestError::WrongNetwork { target, domain, chain } => RequestErrorView::WrongNetwork {
                target: target@,
                domain: domain@,
                chain: *chain,
            },
            RequestError::InvalidTarget { target, domain } => RequestErrorView::InvalidTarget {
                target: target@,
                domain: domain@,
            },
            RequestError::AlreadyOwned { domains } => RequestErrorView::AlreadyOwned {
                domains: views(domains@),
            },
            RequestError::Pricing { fault } => RequestErrorView::Pricing { fault: *fault },
            RequestError::NotStored => RequestErrorView::NotStored,
        }
    }
}

impl RequestErrorView {
    /// The HTTP status that goes with the refusal: 400 where the request is
    /// at fault, 500 where the service is.
    pub open spec fn status(self) -> u16 {
        match self {
            RequestErrorView::Pricing { fault } => if fault.spec_is_users() {
                400
            } else {
                500
            },
            RequestErrorView::NotStored => 500,
            _ => 400,
        }
    }

    /// What the requester is told.
    pub open spec fn message(self) -> Seq<char> {
        match self {
            RequestErrorView::NoDomains => "No domains provided"@,
            RequestErrorView::InvalidDomain { domain } => "Invalid domain: "@ + domain,
            RequestErrorView::WrongNetwork { target, domain, chain } => "Address "@ + target
                + " for domain "@ + domain + " is not on the correct network (should be on "@
                + chain.name() + ")"@,
            RequestErrorView::InvalidTarget { target, domain } => "Invalid target address ("@
                + target + ") for domain: "@ + domain,
            RequestErrorView::AlreadyOwned { domains } =>
                "Front runner protection: the following domains are already owned or being proccessed (try again later ~35 mins max): "@
                + joined(domains, ", "@),
            RequestErrorView::Pricing { fault } => fault.message_text(),
            RequestErrorView::NotStored => "Internal server error"@,
        }
    }
}

impl RequestError {
    /// The HTTP status that goes with the refusal.
    pub fn status(&self) -> (code: u16)
        ensures
            code == self@.status(),
    {
        match self {
            RequestError::Pricing { fault } => if fault.is_users() {
                400
            } else {
                500
            },
            RequestError::NotStored => 500,
            _ => 400,
        }
    }

    /// What the requester is told.
    pub fn message(&self) -> (text: String)
        ensures
            text@ == self@.message(),
    {
        match self {
            RequestError::NoDomains => "No domains provided".to_owned(),
            RequestError::InvalidDomain { domain } => {
                let mut text = "Invalid domain: ".to_owned();
                text.append(domain.as_str());
                text
            },
            RequestError::WrongNetwork { target, domain, chain } => {
                let mut text = "Address ".to_owned();
                text.append(target.as_str());
                text.append(" for domain ");
                text.append(domain.as_str());
                text.append(" is not on the correct network (should be on ");
                text.append(chain.as_str());
                text.append(")");
                text
            },
            RequestError::InvalidTarget { target, domain } => {
                let mut text = "Invalid target address (".to_owned();
                text.append(target.as_str());
                text.append(") for domain: ");
                text.append(domain.as_str());
                text
            },
            RequestError::AlreadyOwned { domains } => {
                let mut text =
                    "Front runner protection: the following domains are already owned or being proccessed (try again later ~35 mins max): ".to_owned();
                let list = join(domains, ", ");
                text.append(list.as_str());
                text
            },
            RequestError::Pricing { fault } => fault.message(),
            RequestError::NotStored => "Internal server error".to_owned(),
        }
    }
}

/// Domain `i` is the first that something is wrong with.
pub open spec fn first_refused(domains: Seq<DomainView>, chain: Chain, i: int) -> bool {
    &&& 0 <= i < domains.len()
    &&& domain_fault(domains[i], chain) is Some
    &&& forall|j: int| 0 <= j < i ==> domain_fault(#[trigger] domains[j], chain) is None
}

/// The refusal that goes with a domain and what is wrong with it.
pub open spec fn refusal(domain: DomainView, fault: DomainFault, chain: Chain) -> RequestErrorView {
    match fault {
        DomainFault::InvalidDomain => RequestErrorView::InvalidDomain { domain: domain.domain },
        DomainFault::WrongNetwork => RequestErrorView::WrongNetwork {
            target: domain.target,
            domain: domain.domain,
            chain,
        },
        DomainFault::InvalidTarget => RequestErrorView::InvalidTarget {
            target: domain.target,
            domain: domain.domain,
        },
    }
}

/// Why the domains of a request are refused, if they are: the request names
/// none, or something is wrong with one of them once they are normalised;
/// the first such domain decides.
pub open spec fn domains_refusal(domains: Seq<DomainView>, chain: Chain) -> Option<
    RequestErrorView,
> {
    let normal = normalized(domains);
    if domains.len() == 0 {
        Some(RequestErrorView::NoDomains)
    } else if exists|i: int| first_refused(normal, chain, i) {
        let i = choose|i: int| first_refused(normal, chain, i);
        Some(refusal(normal[i], domain_fault(normal[i], chain)->0, chain))
    } else {
        None
    }
}

/// Checks the domains of a request and returns them as they are registered.
pub fn validate_domains(data: &CreatePaymentData, chain: Chain) -> (r: Result<
    Vec<CreatePaymentDataDomain>,
    RequestError,
>)
    ensures
        match r {
            Ok(domains) => {
                &&& domains_refusal(domain_views(data.domains@), chain) is None
                &&& domain_views(domains@) == normalized(domain_views(data.domains@))
            },
            Err(e) => domains_refusal(domain_views(data.domains@), chain) == Some(e@),
        },
{
    if data.domains.len() == 0 {
        return Err(RequestError::NoDomains);
    }
    let domains = normalize(data);
    let ghost normal = domain_views(domains@);
    let mut i: usize = 0;
    while i < domains.len()
        invariant
            i <= domains.len(),
            data.domains@.len() != 0,
            normal == domain_views(domains@),
            normal == normalized(domain_views(data.domains@)),
            forall|j: int| 0 <= j < i ==> domain_fault(#[trigger] normal[j], chain) is None,
        decreases domains.len() - i,
    {
        let fault = check_domain(&domains[i], chain);
        if let Some(fault) = fault {
            proof {
                assert(first_refused(normal, chain, i as int));
                let first = choose|first: int| first_refused(normal, chain, first);
                if first < i {
                    assert(domain_fault(normal[first], chain) is None);
                } else if first > i {
                    assert(domain_fault(normal[i as int], chain) is None);
                }
            }
            let error = match fault {
                DomainFault::InvalidDomain => RequestError::InvalidDomain {
                    domain: domains[i].domain.clone(),
                },
                DomainFault::WrongNetwork => RequestError::WrongNetwork {
                    target: domains[i].target.clone(),
                    domain: domains[i].domain.clone(),
                    chain,
                },
                DomainFault::InvalidTarget => RequestError::InvalidTarget {
                    target: domains[i].target.clone(),
                    domain: domains[i].domain.clone(),
                },
            };
            assert(error@ == refusal(normal[i as int], fault, chain));
            return Err(error);
        }
        i += 1;
    }
    proof {
        assert forall|first: int| !first_refused(normal, chain, first) by {
            if 0 <= first < normal.len() {
                assert(domain_fault(normal[first], chain) is None);
            }
        }
    }
    Ok(domains)
}

/// The names of `domains`, in their order.
pub fn names(domains: &Vec<CreatePaymentDataDomain>) -> (names: Vec<String>)
    ensures
        views(names@) == names_of(domain_views(domains@)),
{
    let mut names: Vec<String> = Vec::new();
    let mut i: usize = 0;
    while i < domains.len()
        invariant
            i <= domains.len(),
            names.len() == i,
            forall|k: int| 0 <= k < i ==> (#[trigger] names[k])@ == domains[k]@.domain,
        decreases domains.len() - i,
    {
        names.push(domains[i].domain.clone());
        i += 1;
    }
    assert(views(names@) =~= names_of(domain_views(domains@)));
    names
}

/// Refuses a request for names that another account holds: `taken` is what
/// the reservation guard reported.
pub fn check_front_running(taken: Vec<String>) -> (r: Result<(), RequestError>)
    ensures
        match r {
            Ok(()) => taken@.len() == 0,
            Err(e) => taken@.len() > 0 && e@ == (RequestErrorView::AlreadyOwned {
                domains: views(taken@),
            }),
        },
{
    if taken.len() > 0 {
        Err(RequestError::AlreadyOwned { domains: taken })
    } else {
        Ok(())
    }
}

/// What becomes of a request: the amount to pay, in satoshis, or why the
/// request is refused. The domains are judged first, then the reservations
/// of other accounts, then the price, then the ledger.
pub open spec fn request_outcome(
    ledger: LedgerView,
    chain: Chain,
    user: u128,
    domains: Seq<DomainView>,
    payment_id: u128,
    address: Seq<char>,
    discounts: Seq<DiscountView>,
) -> Result<u64, RequestErrorView> {
    let names = names_of(normalized(domains));
    if domains_refusal(domains, chain) is Some {
        Err(domains_refusal(domains, chain)->0)
    } else if ledger.conflicting(user, names).len() > 0 {
        Err(RequestErrorView::AlreadyOwned { domains: ledger.conflicting(user, names) })
    } else if names.len() > u32::MAX {
        Err(RequestErrorView::Pricing { fault: PricingError::Overflow })
    } else {
        match quoted(DOMAIN_PRICE_BTC, names.len() as u32, discounts, MINIMUM_DOMAIN_PRICE_BTC) {
            Err(fault) => Err(RequestErrorView::Pricing { fault }),
            Ok(quote) => if ledger.open_fault(payment_id, user, address, names) is Some {
                Err(RequestErrorView::NotStored)
            } else {
                Ok(quote.final_price)
            },
        }
    }
}

/// Handles a registration request of account `user` against the ledger:
/// checks the domains, refuses names that another account holds, sets the
/// price under `discounts`, and opens the payment `payment_id` at `address`
/// with the names reserved, all or nothing.
pub fn new(
    ledger: &mut Ledger,
    chain: Chain,
    user: u128,
    data: &CreatePaymentData,
    payment_id: u128,
    address: &str,
    discounts: &Vec<LoyaltyDiscount>,
    now: i64,
) -> (r: Result<CreatePaymentResponseObject, RequestError>)
    requires
        old(ledger)@.wf(),
    ensures
        final(ledger)@.wf(),
        match r {
            Ok(opened) => {
                &&& request_outcome(
                    old(ledger)@,
                    chain,
                    user,
                    domain_views(data.domains@),
                    payment_id,
                    address@,
                    discount_views(discounts@),
                ) == Ok::<u64, RequestErrorView>(opened.amount)
                &&& opened.id == payment_id
                &&& opened.address@ == address@
                &&& final(ledger)@ == old(ledger)@.opened(
                    fresh_payment(payment_id, user, address@, opened.amount, now),
                    names_of(normalized(domain_views(data.domains@))),
                )
            },
            Err(e) => {
                &&& request_outcome(
                    old(ledger)@,
                    chain,
                    user,
                    domain_views(data.domains@),
                    payment_id,
                    address@,
                    discount_views(discounts@),
                ) == Err::<u64, RequestErrorView>(e@)
                &&& final(ledger)@ == old(ledger)@
            },
        },
{
    let domains = match validate_domains(data, chain) {
        Ok(domains) => domains,
        Err(e) => {
            return Err(e);
        },
    };
    let wanted = names(&domains);
    let taken = ledger.get_already_owned_domains(user, &wanted);
    match check_front_running(taken) {
        Ok(()) => {},
        Err(e) => {
            return Err(e);
        },
    }
    if wanted.len() > u32::MAX as usize {
        return Err(RequestError::Pricing { fault: PricingError::Overflow });
    }
    let amount = match calculate_price(wanted.len() as u32, discounts) {
        Ok(amount) => amount,
        Err(fault) => {
            return Err(RequestError::Pricing { fault });
        },
    };
    match ledger.create_payment(payment_id, user, address, amount, &wanted, now) {
        Ok(()) => Ok(
            CreatePaymentResponseObject { id: payment_id, address: address.to_owned(), amount },
        ),
        Err(_) => Err(RequestError::NotStored),
    }
}

} // verus!
