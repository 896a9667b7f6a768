//! The pricing engine: what a number of domains costs once the buyer's
//! loyalty discounts are applied.
//!
//! Every amount is a whole number of units of 10^-8: satoshis for prices and
//! for discounts in BTC, 10^-8 of a percentage point for discounts in percent.
//!
//! Of the discounts that do not stack, the one that takes most off the base
//! price applies, and where several take the same, the first of them. Every
//! stackable discount applies; a stackable discount must be in percent. The
//! price is rounded up to a multiple of [`PRICE_STEP`], and a price under the
//! minimum is a fault, not a price.

use crate::fixed::{ceil_div, lemma_ceil_div_is_least, lemma_ceil_div_of_negated, mul_div};
use vstd::prelude::*;
use vstd::string::*;

verus! {

/// The price of one domain, in satoshis: 0.0007 BTC.
pub const DOMAIN_PRICE_BTC: u64 = 70_000;

/// The least price that is accepted, in satoshis: 0.0004 BTC.
pub const MINIMUM_DOMAIN_PRICE_BTC: u64 = 40_000;

/// One hundred percent, in units of 10^-8 of a percentage point.
pub const FULL_PERCENT: u128 = 10_000_000_000;

/// Prices are multiples of this many satoshis: 10^-7 BTC.
pub const PRICE_STEP: u128 = 10;

/// A discount that applies to a buyer: the collection it is granted for, its
/// amount, its currency (`%` or `BTC`), the message shown for it, and whether
/// it stacks.
#[derive(Debug, Clone, PartialEq, Eq)]
pub struct LoyaltyDiscount(pub String, pub u64, pub String, pub String, pub bool);

/// The mathematical value of a [`LoyaltyDiscount`].
pub struct DiscountView {
    pub collection_id: Seq<char>,
    pub amount: u64,
    pub currency: Seq<char>,
    pub message: Seq<char>,
    pub stackable: bool,
}

impl View for LoyaltyDiscount {
    type V = DiscountView;

    open spec fn view(&self) -> DiscountView {
        DiscountView {
            collection_id: self.0@,
            amount: self.1,
            currency: self.2@,
            message: self.3@,
            stackable: self.4,
        }
    }
}

/// The values of a list of discounts, in their order.
pub open spec fn discount_views(discounts: Seq<LoyaltyDiscount>) -> Seq<DiscountView> {
    Seq::new(discounts.len(), |i: int| discounts[i]@)
}

/// In what a discount is counted.
#[derive(Debug, Clone, Copy, PartialEq, Eq, Structural)]
pub enum Currency {
    /// A share of the price.
    Percent,
    /// An amount of BTC.
    Absolute,
}

impl Currency {
    /// The currency that `code` stands for, if it stands for one.
    pub open spec fn named(code: Seq<char>) -> Option<Currency> {
        if code == "%"@ {
            Some(Currency::Percent)
        } else if code == "BTC"@ {
            Some(Currency::Absolute)
        } else {
            None
        }
    }

    /// Reads a currency code.
    pub fn parse(code: &str) -> (currency: Option<Currency>)
        ensures
            currency == Currency::named(code@),
    {
        let code = code.to_owned();
        if code == "%".to_owned() {
            Some(Currency::Percent)
        } else if code == "BTC".to_owned() {
            Some(Currency::Absolute)
        } else {
            None
        }
    }
}

/// Why no price is quoted.
#[derive(Debug, Clone, Copy, PartialEq, Eq, Structural)]
pub enum PricingError {
    /// A price for no domain was asked for.
    ZeroQuantity,
    /// A discount is in a currency that is neither `%` nor `BTC`.
    InvalidCurrency,
    /// A stackable discount is in BTC: stackable discounts add up as
    /// percentages, so one in BTC is refused rather than counted as percent.
    UnsupportedStackable,
    /// The discounts drive the price under the minimum.
    BelowMinimum,
    /// The price does not fit in 64 bits.
    Overflow,
}

impl PricingError {
    /// Whether the fault lies with the request rather than with the
    /// configuration.
    pub open spec fn spec_is_users(self) -> bool {
        self == PricingError::ZeroQuantity
    }

    /// What the requester is told.
    pub open spec fn message_text(self) -> Seq<char> {
        match self {
            PricingError::ZeroQuantity => "Can not calculate price for 0 domains."@,
            PricingError::InvalidCurrency =>
                "Invalid loyalty discount, please contact a system administrator."@,
            PricingError::UnsupportedStackable =>
                "Invalid loyalty discount, please contact a system administrator."@,
            PricingError::BelowMinimum =>
                "Incorrect calculation of discounts, please contact a system administrator to get this in order."@,
            PricingError::Overflow =>
                "Incorrect calculation of discounts, please contact a system administrator to get this in order."@,
        }
    }

    /// Whether the fault lies with the request rather than with the
    /// configuration.
    #[verifier::when_used_as_spec(spec_is_users)]
    pub fn is_users(self) -> (users: bool)
        ensures
            users == self.spec_is_users(),
    {
        match self {
            PricingError::ZeroQuantity => true,
            _ => false,
        }
    }

    /// What the requester is told.
    pub fn message(self) -> (text: String)
        ensures
            text@ == self.message_text(),
    {
        match self {
            PricingError::ZeroQuantity => "Can not calculate price for 0 domains.".to_owned(),
            PricingError::InvalidCurrency =>
                "Invalid loyalty discount, please contact a system administrator.".to_owned(),
            PricingError::UnsupportedStackable =>
                "Invalid loyalty discount, please contact a system administrator.".to_owned(),
            PricingError::BelowMinimum =>
                "Incorrect calculation of discounts, please contact a system administrator to get this in order.".to_owned(),
            PricingError::Overflow =>
                "Incorrect calculation of discounts, please contact a system administrator to get this in order.".to_owned(),
        }
    }
}

/// One stackable discount of a quote.
#[derive(Debug, Clone, PartialEq, Eq)]
pub struct LoyaltyDiscountResponseObject {
    pub message: String,
    pub amount: u64,
    pub currency: String,
}

/// The mathematical value of a [`LoyaltyDiscountResponseObject`].
pub struct StackableView {
    pub message: Seq<char>,
    pub amount: u64,
    pub currency: Seq<char>,
}

impl View for LoyaltyDiscountResponseObject {
    type V = StackableView;

    open spec fn view(&self) -> StackableView {
        StackableView { message: self.message@, amount: self.amount, currency: self.currency@ }
    }
}

/// A quote: the discounts that were found, the one non-stackable discount
/// that applies, and the price.
#[derive(Debug, Clone, PartialEq, Eq)]
pub struct PricingResponseObject {
    /// The stackable discounts, all of which apply.
    pub stackable_loyalty_discounts: Vec<LoyaltyDiscountResponseObject>,
    /// The messages of the non-stackable discounts, of which one applies.
    pub non_stackable_loyalty_discounts: Vec<String>,
    /// The amount of the non-stackable discount that applies, or 0.
    pub non_stackable_loyalty_discount: u64,
    /// Its currency, or the empty string.
    pub non_stackable_loyalty_discount_currency: String,
    /// The price, in satoshis.
    pub final_price: u64,
}

/// The mathematical value of a [`PricingResponseObject`].
pub struct QuoteView {
    pub stackable: Seq<StackableView>,
    pub non_stackable: Seq<Seq<char>>,
    pub discount: u64,
    pub discount_currency: Seq<char>,
    pub final_price: u64,
}

impl View for PricingResponseObject {
    type V = QuoteView;

    open spec fn view(&self) -> QuoteView {
        QuoteView {
            stackable: Seq::new(
                self.stackable_loyalty_discounts@.len(),
                |i: int| self.stackable_loyalty_discounts@[i]@,
            ),
            non_stackable: Seq::new(
                self.non_stackable_loyalty_discounts@.len(),
                |i: int| self.non_stackable_loyalty_discounts@[i]@,
            ),
            discount: self.non_stackable_loyalty_discount,
            discount_currency: self.non_stackable_loyalty_discount_currency@,
            final_price: self.final_price,
        }
    }
}

/// What is wrong with a discount, if anything is.
pub open spec fn rule_fault(d: DiscountView) -> Option<PricingError> {
    match Currency::named(d.currency) {
        None => Some(PricingError::InvalidCurrency),
        Some(Currency::Absolute) => if d.stackable {
            Some(PricingError::UnsupportedStackable)
        } else {
            None
        },
        Some(Currency::Percent) => None,
    }
}

/// Discount `i` is the first that something is wrong with.
pub open spec fn first_faulty(ds: Seq<DiscountView>, i: int) -> bool {
    &&& 0 <= i < ds.len()
    &&& rule_fault(ds[i]) is Some
    &&& forall|j: int| 0 <= j < i ==> rule_fault(#[trigger] ds[j]) is None
}

/// What is wrong with the first discount that something is wrong with.
pub open spec fn rules_fault(ds: Seq<DiscountView>) -> Option<PricingError> {
    if exists|i: int| first_faulty(ds, i) {
        rule_fault(ds[choose|i: int| first_faulty(ds, i)])
    } else {
        None
    }
}

/// The stackable discounts of `ds`, in their order.
pub open spec fn stackable_of(ds: Seq<DiscountView>) -> Seq<StackableView>
    decreases ds.len(),
{
    if ds.len() == 0 {
        Seq::empty()
    } else if ds.last().stackable {
        stackable_of(ds.drop_last()).push(
            StackableView {
                message: ds.last().message,
                amount: ds.last().amount,
                currency: ds.last().currency,
            },
        )
    } else {
        stackable_of(ds.drop_last())
    }
}

/// The messages of the non-stackable discounts of `ds`, in their order.
pub open spec fn non_stackable_of(ds: Seq<DiscountView>) -> Seq<Seq<char>>
    decreases ds.len(),
{
    if ds.len() == 0 {
        Seq::empty()
    } else if ds.last().stackable {
        non_stackable_of(ds.drop_last())
    } else {
        non_stackable_of(ds.drop_last()).push(ds.last().message)
    }
}

/// The sum of the stackable discounts of `ds`.
pub open spec fn stackable_percent(ds: Seq<DiscountView>) -> int
    decreases ds.len(),
{
    if ds.len() == 0 {
        0
    } else {
        stackable_percent(ds.drop_last()) + if ds.last().stackable {
            ds.last().amount as int
        } else {
            0
        }
    }
}

/// What discount `d` alone takes off a base price of `base`, times
/// [`FULL_PERCENT`].
pub open spec fn weight(base: int, d: DiscountView) -> int {
    if Currency::named(d.currency) == Some(Currency::Absolute) {
        d.amount * FULL_PERCENT
    } else {
        base * d.amount
    }
}

/// Of the first `n` discounts, `i` is the non-stackable one that applies: it
/// takes something off, more than every non-stackable one before it and no
/// less than every one after it.
pub open spec fn leads(base: int, ds: Seq<DiscountView>, n: int, i: int) -> bool {
    &&& 0 <= i < n
    &&& !ds[i].stackable
    &&& weight(base, ds[i]) > 0
    &&& forall|j: int|
        0 <= j < n && !(#[trigger] ds[j]).stackable ==> {
            &&& j < i ==> weight(base, ds[j]) < weight(base, ds[i])
            &&& j > i ==> weight(base, ds[j]) <= weight(base, ds[i])
        }
}

/// The non-stackable discount that applies, if one does.
pub open spec fn winner(base: int, ds: Seq<DiscountView>) -> Option<int> {
    if exists|i: int| leads(base, ds, ds.len() as int, i) {
        Some(choose|i: int| leads(base, ds, ds.len() as int, i))
    } else {
        None
    }
}

/// The price of `quantity` units before any discount.
pub open spec fn base_price(unit_price: u64, quantity: u32) -> int {
    unit_price * quantity
}

/// What the non-stackable discount that applies takes off in BTC.
pub open spec fn absolute_off(base: int, ds: Seq<DiscountView>) -> int {
    match winner(base, ds) {
        Some(i) => if Currency::named(ds[i].currency) == Some(Currency::Absolute) {
            ds[i].amount as int
        } else {
            0
        },
        None => 0,
    }
}

/// The percentage that is taken off: the stackable discounts, and the
/// non-stackable discount that applies if it is in percent.
pub open spec fn total_percent(base: int, ds: Seq<DiscountView>) -> int {
    stackable_percent(ds) + match winner(base, ds) {
        Some(i) => if Currency::named(ds[i].currency) == Some(Currency::Absolute) {
            0
        } else {
            ds[i].amount as int
        },
        None => 0,
    }
}

/// The price before rounding, times [`FULL_PERCENT`].
pub open spec fn unrounded_price(base: int, ds: Seq<DiscountView>) -> int {
    (base - absolute_off(base, ds)) * (FULL_PERCENT - total_percent(base, ds))
}

/// `scaled / FULL_PERCENT`, rounded up to a multiple of [`PRICE_STEP`].
pub open spec fn rounded_up(scaled: int) -> int {
    PRICE_STEP * ceil_div(scaled, FULL_PERCENT * PRICE_STEP)
}

/// The price after discounts and rounding.
pub open spec fn final_price(unit_price: u64, quantity: u32, ds: Seq<DiscountView>) -> int {
    rounded_up(unrounded_price(base_price(unit_price, quantity), ds))
}

/// The quote for `quantity` units at `unit_price` under the discounts `ds`,
/// or why there is none.
pub open spec fn quoted(
    unit_price: u64,
    quantity: u32,
    ds: Seq<DiscountView>,
    minimum: u64,
) -> Result<QuoteView, PricingError> {
    let base = base_price(unit_price, quantity);
    let price = final_price(unit_price, quantity, ds);
    if quantity == 0 {
        Err(PricingError::ZeroQuantity)
    } else if rules_fault(ds) is Some {
        Err(rules_fault(ds)->0)
    } else if price < minimum {
        Err(PricingError::BelowMinimum)
    } else if price > u64::MAX {
        Err(PricingError::Overflow)
    } else {
        Ok(
            QuoteView {
                stackable: stackable_of(ds),
                non_stackable: non_stackable_of(ds),
                discount: match winner(base, ds) {
                    Some(i) => ds[i].amount,
                    None => 0,
                },
                discount_currency: match winner(base, ds) {
                    Some(i) => ds[i].currency,
                    None => Seq::empty(),
                },
                final_price: price as u64,
            },
        )
    }
}

/// Rounding never favours the payer: the rounded price is a multiple of
/// [`PRICE_STEP`], is not under the exact price, and is the least such
/// multiple.
pub proof fn lemma_rounding_never_favours_payer(scaled: int)
    ensures
        rounded_up(scaled) % (PRICE_STEP as int) == 0,
        rounded_up(scaled) * FULL_PERCENT >= scaled,
        (rounded_up(scaled) - PRICE_STEP) * FULL_PERCENT < scaled,
{
    let d = FULL_PERCENT * PRICE_STEP;
    let c = ceil_div(scaled, d);
    lemma_ceil_div_is_least(scaled, d);
    assert(rounded_up(scaled) == 10 * c);
    assert(rounded_up(scaled) * FULL_PERCENT == c * d) by (nonlinear_arith)
        requires
            rounded_up(scaled) == 10 * c,
            d == FULL_PERCENT * 10,
    ;
    assert((rounded_up(scaled) - PRICE_STEP) * FULL_PERCENT == (c - 1) * d) by (nonlinear_arith)
        requires
            rounded_up(scaled) == 10 * c,
            PRICE_STEP == 10,
            d == FULL_PERCENT * 10,
    ;
}

/// The price that is quoted is not under the exact price after discounts.
pub proof fn lemma_quote_not_under_exact_price(
    unit_price: u64,
    quantity: u32,
    ds: Seq<DiscountView>,
    minimum: u64,
)
    requires
        quoted(unit_price, quantity, ds, minimum) is Ok,
    ensures
        quoted(unit_price, quantity, ds, minimum)->Ok_0.final_price * FULL_PERCENT
            >= unrounded_price(base_price(unit_price, quantity), ds),
{
    lemma_rounding_never_favours_payer(unrounded_price(base_price(unit_price, quantity), ds));
}

/// No price under the minimum is ever quoted: where the discounts drive the
/// price under it, the outcome is the fault, whatever the discounts are.
pub proof fn lemma_floor_is_enforced(
    unit_price: u64,
    quantity: u32,
    ds: Seq<DiscountView>,
    minimum: u64,
)
    ensures
        quoted(unit_price, quantity, ds, minimum) matches Ok(quote) ==> quote.final_price
            >= minimum,
        quantity > 0 && rules_fault(ds) is None && final_price(unit_price, quantity, ds)
            < minimum ==> quoted(unit_price, quantity, ds, minimum) == Err::<
            QuoteView,
            PricingError,
        >(PricingError::BelowMinimum),
{
}

/// The quote depends on the unit price, the quantity, the discounts and the
/// minimum, and on nothing else: equal inputs give equal outcomes.
pub proof fn lemma_pricing_is_deterministic(
    unit_price: u64,
    quantity: u32,
    first: Seq<DiscountView>,
    second: Seq<DiscountView>,
    minimum: u64,
)
    requires
        first =~= second,
    ensures
        quoted(unit_price, quantity, first, minimum) == quoted(
            unit_price,
            quantity,
            second,
            minimum,
        ),
{
}

/// The currencies of `discounts`, or what is wrong with the first discount
/// that something is wrong with.
fn read_currencies(discounts: &Vec<LoyaltyDiscount>) -> (r: Result<Vec<Currency>, PricingError>)
    ensures
        match r {
            Ok(currencies) => {
                &&& rules_fault(discount_views(discounts@)) is None
                &&& currencies.len() == discounts.len()
                &&& forall|i: int|
                    0 <= i < discounts.len() ==> Some(#[trigger] currencies[i]) == Currency::named(
                        discounts[i]@.currency,
                    )
            },
            Err(e) => rules_fault(discount_views(discounts@)) == Some(e),
        },
{
    let ghost ds = discount_views(discounts@);
    let mut currencies: Vec<Currency> = Vec::new();
    let mut i: usize = 0;
    while i < discounts.len()
        invariant
            i <= discounts.len(),
            ds == discount_views(discounts@),
            currencies.len() == i,
            forall|j: int| 0 <= j < i ==> rule_fault(#[trigger] ds[j]) is None,
            forall|j: int|
                0 <= j < i ==> Some(#[trigger] currencies[j]) == Currency::named(
                    discounts[j]@.currency,
                ),
        decreases discounts.len() - i,
    {
        let fault = match Currency::parse(discounts[i].2.as_str()) {
            None => Some(PricingError::InvalidCurrency),
            Some(Currency::Absolute) => {
                if discounts[i].4 {
                    Some(PricingError::UnsupportedStackable)
                } else {
                    currencies.push(Currency::Absolute);
                    None
                }
            },
            Some(Currency::Percent) => {
                currencies.push(Currency::Percent);
                None
            },
        };
        assert(fault == rule_fault(ds[i as int]));
        if let Some(e) = fault {
            proof {
                assert(first_faulty(ds, i as int));
                let first = choose|first: int| first_faulty(ds, first);
                assert(first == i) by {
                    if first < i {
                        assert(rule_fault(ds[first]) is None);
                    } else if first > i {
                        assert(rule_fault(ds[i as int]) is None);
                    }
                }
            }
            return Err(e);
        }
        i += 1;
    }
    proof {
        assert forall|first: int| !first_faulty(ds, first) by {
            if 0 <= first < ds.len() {
                assert(rule_fault(ds[first]) is None);
            }
        }
    }
    Ok(currencies)
}

/// What a discount of `amount` in `currency` alone takes off a base price of
/// `base`, times [`FULL_PERCENT`].
pub open spec fn weight_of(base: int, currency: Currency, amount: u64) -> int {
    if currency == Currency::Absolute {
        amount * FULL_PERCENT
    } else {
        base * amount
    }
}

/// Whether the first discount takes more off `base` than the second.
fn outweighs(base: u128, currency: Currency, amount: u64, than: Currency, other: u64) -> (more:
    bool)
    ensures
        more == (weight_of(base as int, currency, amount) > weight_of(base as int, than, other)),
{
    match (currency, than) {
        (Currency::Absolute, Currency::Absolute) => {
            assert(amount > other <==> amount * FULL_PERCENT > other * FULL_PERCENT)
                by (nonlinear_arith);
            amount > other
        },
        (Currency::Percent, Currency::Percent) => {
            assert((base > 0 && amount > other) <==> base * amount > base * other)
                by (nonlinear_arith)
                requires
                    base >= 0,
            ;
            base > 0 && amount > other
        },
        (Currency::Absolute, Currency::Percent) => {
            let mine: u128 = (amount as u128) * FULL_PERCENT;
            match base.checked_mul(other as u128) {
                None => false,
                Some(theirs) => mine > theirs,
            }
        },
        (Currency::Percent, Currency::Absolute) => {
            let theirs: u128 = (other as u128) * FULL_PERCENT;
            match base.checked_mul(amount as u128) {
                None => true,
                Some(mine) => mine > theirs,
            }
        },
    }
}

/// The non-stackable discount that applies, if one does.
fn select(base: u128, discounts: &Vec<LoyaltyDiscount>, currencies: &Vec<Currency>) -> (best:
    Option<usize>)
    requires
        currencies.len() == discounts.len(),
        forall|i: int|
            0 <= i < discounts.len() ==> Some(#[trigger] currencies[i]) == Currency::named(
                discounts[i]@.currency,
            ),
    ensures
        match best {
            Some(i) => winner(base as int, discount_views(discounts@)) == Some(i as int),
            None => winner(base as int, discount_views(discounts@)) is None,
        },
{
    let ghost ds = discount_views(discounts@);
    let mut best: Option<usize> = None;
    let mut n: usize = 0;
    while n < discounts.len()
        invariant
            n <= discounts.len(),
            ds == discount_views(discounts@),
            currencies.len() == discounts.len(),
            forall|i: int|
                0 <= i < discounts.len() ==> Some(#[trigger] currencies[i]) == Currency::named(
                    discounts[i]@.currency,
                ),
            forall|i: int|
                0 <= i < discounts.len() ==> weight(base as int, #[trigger] ds[i]) == weight_of(
                    base as int,
                    currencies[i],
                    discounts[i].1,
                ),
            match best {
                Some(b) => leads(base as int, ds, n as int, b as int),
                None => forall|j: int|
                    0 <= j < n && !(#[trigger] ds[j]).stackable ==> weight(base as int, ds[j])
                        <= 0,
            },
        decreases discounts.len() - n,
    {
        if !discounts[n].4 {
            let better = match best {
                Some(b) => outweighs(
                    base,
                    currencies[n],
                    discounts[n].1,
                    currencies[b],
                    discounts[b].1,
                ),
                None => outweighs(base, currencies[n], discounts[n].1, Currency::Absolute, 0),
            };
            assert(weight_of(base as int, Currency::Absolute, 0) == 0) by (nonlinear_arith);
            if better {
                best = Some(n);
            }
        }
        n += 1;
    }
    proof {
        match best {
            Some(b) => {
                let w = choose|w: int| leads(base as int, ds, ds.len() as int, w);
                assert(leads(base as int, ds, ds.len() as int, b as int));
                if w < b {
                    assert(!ds[w].stackable);
                } else if w > b {
                    assert(!ds[b as int].stackable);
                }
            },
            None => {
                assert forall|w: int| !leads(base as int, ds, ds.len() as int, w) by {
                    if 0 <= w < ds.len() && !ds[w].stackable {
                        assert(weight(base as int, ds[w]) <= 0);
                    }
                }
            },
        }
    }
    best
}

/// The price of what is left of `base` after `absolute` satoshis and
/// `percent` units of percent are taken off, rounded up, if it is a price at
/// all.
fn rounded_price(base: u128, absolute: u64, percent: u128, minimum: u64) -> (r: Result<
    u64,
    PricingError,
>)
    ensures
        match r {
            Ok(price) => {
                &&& price == rounded_up((base - absolute) * (FULL_PERCENT - percent))
                &&& price >= minimum
            },
            Err(e) => {
                let price = rounded_up((base - absolute) * (FULL_PERCENT - percent));
                if price < minimum {
                    e == PricingError::BelowMinimum
                } else {
                    price > u64::MAX && e == PricingError::Overflow
                }
            },
        },
{
    let step: u128 = FULL_PERCENT * PRICE_STEP;
    let owed_negative = base < absolute as u128;
    let owed: u128 = if owed_negative {
        absolute as u128 - base
    } else {
        base - absolute as u128
    };
    let share_negative = FULL_PERCENT < percent;
    let share: u128 = if share_negative {
        percent - FULL_PERCENT
    } else {
        FULL_PERCENT - percent
    };
    let negative = owed_negative != share_negative && owed != 0 && share != 0;
    let ghost scaled = (base - absolute) * (FULL_PERCENT - percent);
    let ghost size = owed * share;
    proof {
        assert(size >= 0) by (nonlinear_arith)
            requires
                size == owed * share,
                owed >= 0,
                share >= 0,
        ;
        if negative {
            assert(scaled == -size) by (nonlinear_arith)
                requires
                    scaled == (base - absolute) * (FULL_PERCENT - percent),
                    size == owed * share,
                    (owed == absolute - base && share == FULL_PERCENT - percent) || (owed == base
                        - absolute && share == percent - FULL_PERCENT),
            ;
            lemma_ceil_div_of_negated(size, step as int);
        } else {
            assert(scaled == size) by (nonlinear_arith)
                requires
                    scaled == (base - absolute) * (FULL_PERCENT - percent),
                    size == owed * share,
                    (owed == base - absolute && share == FULL_PERCENT - percent) || (owed
                        == absolute - base && share == percent - FULL_PERCENT) || owed == 0 && base
                        == absolute || share == 0 && percent == FULL_PERCENT,
            ;
        }
        assert(size / (step as int) >= 0) by (nonlinear_arith)
            requires
                size >= 0,
                step > 0,
        ;
    }
    match mul_div(owed, share, step) {
        None => {
            if negative {
                Err(PricingError::BelowMinimum)
            } else {
                Err(PricingError::Overflow)
            }
        },
        Some((quotient, exact)) => {
            if negative {
                if quotient == 0 && minimum == 0 {
                    Ok(0)
                } else {
                    Err(PricingError::BelowMinimum)
                }
            } else {
                if quotient >= u64::MAX as u128 {
                    return Err(PricingError::Overflow);
                }
                let steps: u128 = if exact {
                    quotient
                } else {
                    quotient + 1
                };
                let price: u128 = steps * PRICE_STEP;
                if price > u64::MAX as u128 {
                    Err(PricingError::Overflow)
                } else if price < minimum as u128 {
                    Err(PricingError::BelowMinimum)
                } else {
                    Ok(price as u64)
                }
            }
        },
    }
}

/// Quotes the price of `quantity` units at `unit_price` satoshis each under
/// `discounts`, the discounts that apply to the buyer. A price under
/// `minimum` is refused.
pub fn price(
    unit_price: u64,
    quantity: u32,
    discounts: &Vec<LoyaltyDiscount>,
    minimum: u64,
) -> (r: Result<PricingResponseObject, PricingError>)
    ensures
        match r {
            Ok(quote) => quoted(unit_price, quantity, discount_views(discounts@), minimum) == Ok::<
                QuoteView,
                PricingError,
            >(quote@),
            Err(e) => quoted(unit_price, quantity, discount_views(discounts@), minimum) == Err::<
                QuoteView,
                PricingError,
            >(e),
        },
{
    let ghost ds = discount_views(discounts@);
    if quantity == 0 {
        return Err(PricingError::ZeroQuantity);
    }
    let currencies = match read_currencies(discounts) {
        Err(e) => {
            return Err(e);
        },
        Ok(currencies) => currencies,
    };
    assert(unit_price * quantity <= u64::MAX * u32::MAX) by (nonlinear_arith)
        requires
            unit_price <= u64::MAX,
            quantity <= u32::MAX,
    ;
    let base: u128 = (unit_price as u128) * (quantity as u128);
    let best = select(base, discounts, &currencies);
    let mut stackable: Vec<LoyaltyDiscountResponseObject> = Vec::new();
    let mut non_stackable: Vec<String> = Vec::new();
    let mut percent: u128 = 0;
    let mut i: usize = 0;
    let ghost mut listed: Seq<StackableView> = Seq::empty();
    let ghost mut messages: Seq<Seq<char>> = Seq::empty();
    assert(ds.take(0) =~= Seq::empty());
    while i < discounts.len()
        invariant
            i <= discounts.len(),
            ds == discount_views(discounts@),
            percent == stackable_percent(ds.take(i as int)),
            percent <= i * u64::MAX,
            listed == stackable_of(ds.take(i as int)),
            messages == non_stackable_of(ds.take(i as int)),
            listed == Seq::new(stackable@.len(), |k: int| stackable@[k]@),
            messages == Seq::new(non_stackable@.len(), |k: int| non_stackable@[k]@),
        decreases discounts.len() - i,
    {
        assert(ds.take(i + 1).drop_last() =~= ds.take(i as int));
        assert(ds.take(i + 1).last() == discounts[i as int]@);
        assert(i * u64::MAX + u64::MAX <= usize::MAX * u64::MAX) by (nonlinear_arith)
            requires
                i < usize::MAX,
        ;
        if discounts[i].4 {
            percent = percent + discounts[i].1 as u128;
            stackable.push(
                LoyaltyDiscountResponseObject {
                    message: discounts[i].3.clone(),
                    amount: discounts[i].1,
                    currency: discounts[i].2.clone(),
                },
            );
            proof {
                let added = StackableView {
                    message: ds[i as int].message,
                    amount: ds[i as int].amount,
                    currency: ds[i as int].currency,
                };
                assert(Seq::new(stackable@.len(), |k: int| stackable@[k]@) =~= listed.push(added));
                listed = listed.push(added);
            }
        } else {
            non_stackable.push(discounts[i].3.clone());
            proof {
                assert(Seq::new(non_stackable@.len(), |k: int| non_stackable@[k]@)
                    =~= messages.push(ds[i as int].message));
                messages = messages.push(ds[i as int].message);
            }
        }
        i += 1;
    }
    assert(ds.take(i as int) =~= ds);
    let mut absolute: u64 = 0;
    let mut discount: u64 = 0;
    let mut discount_currency = String::new();
    match best {
        Some(b) => {
            discount = discounts[b].1;
            discount_currency = discounts[b].2.clone();
            match currencies[b] {
                Currency::Absolute => {
                    absolute = discounts[b].1;
                },
                Currency::Percent => {
                    percent = percent + discounts[b].1 as u128;
                },
            }
        },
        None => {},
    }
    assert(absolute == absolute_off(base as int, ds));
    assert(percent == total_percent(base as int, ds));
    let final_price = match rounded_price(base, absolute, percent, minimum) {
        Err(e) => {
            return Err(e);
        },
        Ok(final_price) => final_price,
    };
    let quote = PricingResponseObject {
        stackable_loyalty_discounts: stackable,
        non_stackable_loyalty_discounts: non_stackable,
        non_stackable_loyalty_discount: discount,
        non_stackable_loyalty_discount_currency: discount_currency,
        final_price,
    };
    assert(quote@.stackable =~= stackable_of(ds));
    assert(quote@.non_stackable =~= non_stackable_of(ds));
    Ok(quote)
}

/// Quotes the price of `amount` domains at [`DOMAIN_PRICE_BTC`] each, with
/// the discounts found and the one non-stackable discount that applies. A
/// price under [`MINIMUM_DOMAIN_PRICE_BTC`] is refused.
pub fn get_price(amount: u32, loyalty_discounts: &Vec<LoyaltyDiscount>) -> (r: Result<
    PricingResponseObject,
    PricingError,
>)
    ensures
        match r {
            Ok(quote) => quoted(
                DOMAIN_PRICE_BTC,
                amount,
                discount_views(loyalty_discounts@),
                MINIMUM_DOMAIN_PRICE_BTC,
            ) == Ok::<QuoteView, PricingError>(quote@),
            Err(e) => quoted(
                DOMAIN_PRICE_BTC,
                amount,
                discount_views(loyalty_discounts@),
                MINIMUM_DOMAIN_PRICE_BTC,
            ) == Err::<QuoteView, PricingError>(e),
        },
{
    price(DOMAIN_PRICE_BTC, amount, loyalty_discounts, MINIMUM_DOMAIN_PRICE_BTC)
}

/// The price of `amount` domains at [`DOMAIN_PRICE_BTC`] each under
/// `loyalty_discounts`, in satoshis: the price that [`get_price`] quotes.
pub fn calculate_price(amount: u32, loyalty_discounts: &Vec<LoyaltyDiscount>) -> (r: Result<
    u64,
    PricingError,
>)
    ensures
        match r {
            Ok(total) => quoted(
                DOMAIN_PRICE_BTC,
                amount,
                discount_views(loyalty_discounts@),
                MINIMUM_DOMAIN_PRICE_BTC,
            ) matches Ok(quote) && quote.final_price == total,
            Err(e) => quoted(
                DOMAIN_PRICE_BTC,
                amount,
                discount_views(loyalty_discounts@),
                MINIMUM_DOMAIN_PRICE_BTC,
            ) == Err::<QuoteView, PricingError>(e),
        },
{
    match get_price(amount, loyalty_discounts) {
        Ok(quote) => Ok(quote.final_price),
        Err(e) => Err(e),
    }
}

} // verus!
