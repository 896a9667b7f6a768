use domain_pay::pricing::{
    calculate_price, get_price, price, LoyaltyDiscount, PricingError, DOMAIN_PRICE_BTC,
    MINIMUM_DOMAIN_PRICE_BTC,
};

const PERCENT: u64 = 100_000_000;

fn percent(collection: &str, amount: u64, stackable: bool) -> LoyaltyDiscount {
    LoyaltyDiscount(
        collection.to_string(),
        amount,
        "%".to_string(),
        format!("{} holder", collection),
        stackable,
    )
}

fn btc(collection: &str, sats: u64, stackable: bool) -> LoyaltyDiscount {
    LoyaltyDiscount(
        collection.to_string(),
        sats,
        "BTC".to_string(),
        format!("{} holder", collection),
        stackable,
    )
}

#[test]
fn two_domains_without_discounts_cost_twice_the_unit_price() {
    let quote = get_price(2, &Vec::new()).unwrap();
    assert_eq!(quote.final_price, 140_000);
    assert!(quote.stackable_loyalty_discounts.is_empty());
    assert!(quote.non_stackable_loyalty_discounts.is_empty());
    assert_eq!(quote.non_stackable_loyalty_discount, 0);
    assert_eq!(quote.non_stackable_loyalty_discount_currency, "");
}

#[test]
fn stackable_percentages_add_up() {
    let discounts = vec![percent("bit-apes", 10 * PERCENT, true), percent("frogs", 5 * PERCENT, true)];
    let quote = get_price(1, &discounts).unwrap();
    assert_eq!(quote.final_price, 59_500);
    assert_eq!(quote.stackable_loyalty_discounts.len(), 2);
    assert_eq!(quote.stackable_loyalty_discounts[0].message, "bit-apes holder");
    assert_eq!(quote.stackable_loyalty_discounts[0].amount, 10 * PERCENT);
    assert_eq!(quote.stackable_loyalty_discounts[0].currency, "%");
    assert_eq!(quote.stackable_loyalty_discounts[1].message, "frogs holder");
    assert_eq!(quote.stackable_loyalty_discounts[1].amount, 5 * PERCENT);
    assert!(quote.non_stackable_loyalty_discounts.is_empty());
    assert_eq!(quote.non_stackable_loyalty_discount, 0);
    assert_eq!(quote.non_stackable_loyalty_discount_currency, "");
}

#[test]
fn the_non_stackable_discount_that_takes_most_off_applies() {
    let discounts = vec![btc("bit-apes", 20_000, false), percent("frogs", 20 * PERCENT, false)];
    let quote = get_price(1, &discounts).unwrap();
    assert_eq!(quote.final_price, 50_000);
    assert_eq!(quote.non_stackable_loyalty_discount, 20_000);
    assert_eq!(quote.non_stackable_loyalty_discount_currency, "BTC");
    assert_eq!(
        quote.non_stackable_loyalty_discounts,
        vec!["bit-apes holder".to_string(), "frogs holder".to_string()]
    );
    assert!(quote.stackable_loyalty_discounts.is_empty());

    let reversed = vec![percent("frogs", 20 * PERCENT, false), btc("bit-apes", 20_000, false)];
    let quote = get_price(1, &reversed).unwrap();
    assert_eq!(quote.final_price, 50_000);
    assert_eq!(quote.non_stackable_loyalty_discount_currency, "BTC");
}

#[test]
fn a_non_stackable_percentage_joins_the_stackable_ones() {
    let discounts = vec![
        percent("a", 10 * PERCENT, true),
        percent("b", 20 * PERCENT, false),
        btc("c", 1_000, false),
    ];
    let quote = get_price(1, &discounts).unwrap();
    // 70 000 * (100 % - 30 %)
    assert_eq!(quote.final_price, 49_000);
    assert_eq!(quote.non_stackable_loyalty_discount, 20 * PERCENT);
    assert_eq!(quote.non_stackable_loyalty_discount_currency, "%");
}

#[test]
fn a_non_stackable_amount_is_taken_off_before_the_percentage() {
    let discounts = vec![percent("a", 10 * PERCENT, true), btc("c", 20_000, false)];
    let quote = get_price(1, &discounts).unwrap();
    // (70 000 - 20 000) * 90 %
    assert_eq!(quote.final_price, 45_000);
}

#[test]
fn of_equal_non_stackable_discounts_the_first_applies() {
    // 10 % of 70 000 and 7 000 satoshis take the same off
    let first = vec![percent("a", 10 * PERCENT, false), btc("b", 7_000, false)];
    let quote = get_price(1, &first).unwrap();
    assert_eq!(quote.non_stackable_loyalty_discount_currency, "%");
    assert_eq!(quote.final_price, 63_000);
    let second = vec![btc("b", 7_000, false), percent("a", 10 * PERCENT, false)];
    let quote = get_price(1, &second).unwrap();
    assert_eq!(quote.non_stackable_loyalty_discount_currency, "BTC");
    assert_eq!(quote.final_price, 63_000);
}

#[test]
fn a_non_stackable_discount_of_nothing_does_not_apply() {
    let discounts = vec![percent("a", 0, false), btc("b", 0, false)];
    let quote = get_price(1, &discounts).unwrap();
    assert_eq!(quote.final_price, 70_000);
    assert_eq!(quote.non_stackable_loyalty_discount, 0);
    assert_eq!(quote.non_stackable_loyalty_discount_currency, "");
    assert_eq!(quote.non_stackable_loyalty_discounts.len(), 2);
}

#[test]
fn prices_are_rounded_up_to_ten_satoshis() {
    let discounts = vec![percent("a", 15 * PERCENT, true)];
    // 70 001 * 85 % = 59 500.85
    let quote = price(70_001, 1, &discounts, 0).unwrap();
    assert_eq!(quote.final_price, 59_510);
    // 70 000 * 85 % = 59 500 exactly: nothing is added
    let quote = price(70_000, 1, &discounts, 0).unwrap();
    assert_eq!(quote.final_price, 59_500);
    // one satoshi is rounded up to ten
    let quote = price(1, 1, &Vec::new(), 0).unwrap();
    assert_eq!(quote.final_price, 10);
}

#[test]
fn rounding_never_favours_the_payer() {
    for unit in [1u64, 7, 69_999, 70_000, 70_001, 123_456_789] {
        for share in [0u64, 1, 33_333_333, 10 * PERCENT, 99 * PERCENT + 99_999_999] {
            let discounts = vec![percent("a", share, true)];
            let quote = price(unit, 3, &discounts, 0).unwrap();
            let exact = (unit as u128 * 3) * (100 * PERCENT as u128 - share as u128);
            let quoted = quote.final_price as u128 * (100 * PERCENT as u128);
            assert!(quoted >= exact);
            assert!(quoted < exact + 10 * (100 * PERCENT as u128));
            assert_eq!(quote.final_price % 10, 0);
        }
    }
}

#[test]
fn a_price_under_the_minimum_is_a_fault() {
    // 70 000 * 50 % = 35 000 < 40 000
    let half = vec![percent("a", 50 * PERCENT, true)];
    assert_eq!(get_price(1, &half).unwrap_err(), PricingError::BelowMinimum);
    // two domains at half price are 70 000
    assert_eq!(get_price(2, &half).unwrap().final_price, 70_000);
    // more than everything off
    let all = vec![percent("a", 150 * PERCENT, true)];
    assert_eq!(get_price(1, &all).unwrap_err(), PricingError::BelowMinimum);
    // more BTC off than the price
    let more = vec![btc("a", 100_000, false)];
    assert_eq!(get_price(1, &more).unwrap_err(), PricingError::BelowMinimum);
    // just under and just at the minimum
    let under = vec![btc("a", 30_010, false)];
    assert_eq!(get_price(1, &under).unwrap_err(), PricingError::BelowMinimum);
    let at = vec![btc("a", 30_000, false)];
    assert_eq!(get_price(1, &at).unwrap().final_price, MINIMUM_DOMAIN_PRICE_BTC);
}

#[test]
fn a_minimum_of_nothing_accepts_a_price_of_nothing() {
    let all = vec![percent("a", 100 * PERCENT, true)];
    assert_eq!(price(70_000, 1, &all, 0).unwrap().final_price, 0);
    let more = vec![percent("a", 100 * PERCENT + 1, true)];
    assert_eq!(price(70_000, 1, &more, 0).unwrap().final_price, 0);
    let much_more = vec![percent("a", 300 * PERCENT, true)];
    assert_eq!(price(70_000, 1, &much_more, 0).unwrap_err(), PricingError::BelowMinimum);
}

#[test]
fn the_formula_is_applied_as_it_is_written() {
    // (70 000 - 570 000) * (100 % - 200 %) = 500 000
    let discounts = vec![btc("a", 570_000, false), percent("b", 200 * PERCENT, true)];
    assert_eq!(get_price(1, &discounts).unwrap().final_price, 500_000);
    // (70 000 - 100 000) * (100 % - 200 %) = 30 000 < 40 000
    let discounts = vec![btc("a", 100_000, false), percent("b", 200 * PERCENT, true)];
    assert_eq!(get_price(1, &discounts).unwrap_err(), PricingError::BelowMinimum);
}

#[test]
fn no_price_for_no_domain() {
    assert_eq!(get_price(0, &Vec::new()).unwrap_err(), PricingError::ZeroQuantity);
    assert_eq!(calculate_price(0, &Vec::new()).unwrap_err(), PricingError::ZeroQuantity);
    // the quantity is judged before the discounts
    let bad = vec![LoyaltyDiscount("a".into(), 1, "EUR".into(), "m".into(), false)];
    assert_eq!(get_price(0, &bad).unwrap_err(), PricingError::ZeroQuantity);
}

#[test]
fn an_unknown_currency_is_a_fault() {
    let bad = vec![LoyaltyDiscount("a".into(), 1, "EUR".into(), "m".into(), false)];
    assert_eq!(get_price(1, &bad).unwrap_err(), PricingError::InvalidCurrency);
    let bad = vec![LoyaltyDiscount("a".into(), 1, "".into(), "m".into(), true)];
    assert_eq!(get_price(1, &bad).unwrap_err(), PricingError::InvalidCurrency);
    let bad = vec![LoyaltyDiscount("a".into(), 1, "btc".into(), "m".into(), false)];
    assert_eq!(get_price(1, &bad).unwrap_err(), PricingError::InvalidCurrency);
}

#[test]
fn a_stackable_discount_in_btc_is_a_fault() {
    let bad = vec![btc("a", 1, true)];
    assert_eq!(get_price(1, &bad).unwrap_err(), PricingError::UnsupportedStackable);
}

#[test]
fn the_first_faulty_discount_decides() {
    let bad = vec![
        percent("ok", PERCENT, true),
        btc("a", 1, true),
        LoyaltyDiscount("b".into(), 1, "EUR".into(), "m".into(), false),
    ];
    assert_eq!(get_price(1, &bad).unwrap_err(), PricingError::UnsupportedStackable);
    let bad = vec![
        LoyaltyDiscount("b".into(), 1, "EUR".into(), "m".into(), false),
        btc("a", 1, true),
    ];
    assert_eq!(get_price(1, &bad).unwrap_err(), PricingError::InvalidCurrency);
    // a faulty discount is a fault even where the price would be too low
    let bad = vec![percent("x", 90 * PERCENT, true), btc("a", 1, true)];
    assert_eq!(get_price(1, &bad).unwrap_err(), PricingError::UnsupportedStackable);
}

#[test]
fn a_price_that_does_not_fit_is_a_fault() {
    assert_eq!(price(u64::MAX, 2, &Vec::new(), 0).unwrap_err(), PricingError::Overflow);
    assert_eq!(price(u64::MAX, u32::MAX, &Vec::new(), 0).unwrap_err(), PricingError::Overflow);
    // the largest multiple of ten that fits
    assert_eq!(
        price(u64::MAX - 5, 1, &Vec::new(), 0).unwrap().final_price,
        18_446_744_073_709_551_610
    );
    // one more is rounded up beyond 64 bits
    assert_eq!(price(u64::MAX - 4, 1, &Vec::new(), 0).unwrap_err(), PricingError::Overflow);
    // large discounts on a large price
    let discounts =
        vec![percent("a", u64::MAX, true), percent("b", u64::MAX, true), btc("c", u64::MAX, false)];
    assert_eq!(price(u64::MAX, u32::MAX, &discounts, 1).unwrap_err(), PricingError::BelowMinimum);
}

#[test]
fn large_percentages_on_a_large_debt_do_not_fit() {
    // (1 - 2^64) * (100 % - 2 * (2^64 - 1)) is far beyond 64 bits
    let discounts =
        vec![percent("a", u64::MAX, true), percent("b", u64::MAX, true), btc("c", u64::MAX, false)];
    assert_eq!(price(0, 1, &discounts, 1).unwrap_err(), PricingError::Overflow);
}

#[test]
fn equal_inputs_give_equal_quotes() {
    let discounts = vec![
        percent("a", 3 * PERCENT, true),
        btc("b", 5_000, false),
        percent("c", 4 * PERCENT, false),
    ];
    let first = get_price(3, &discounts).unwrap();
    let second = get_price(3, &discounts).unwrap();
    assert_eq!(first.final_price, second.final_price);
    assert_eq!(first.non_stackable_loyalty_discount, second.non_stackable_loyalty_discount);
    assert_eq!(
        first.non_stackable_loyalty_discount_currency,
        second.non_stackable_loyalty_discount_currency
    );
    assert_eq!(first.non_stackable_loyalty_discounts, second.non_stackable_loyalty_discounts);
    assert_eq!(first.stackable_loyalty_discounts.len(), second.stackable_loyalty_discounts.len());
    // 4 % of 210 000 is more than 5 000: 210 000 * (100 % - 3 % - 4 %)
    assert_eq!(first.final_price, 195_300);
    assert_eq!(first.non_stackable_loyalty_discount_currency, "%");
}

#[test]
fn calculate_price_is_the_price_of_the_quote() {
    let discounts = vec![percent("a", 10 * PERCENT, true), btc("b", 1_000, false)];
    for quantity in 1..5u32 {
        assert_eq!(
            calculate_price(quantity, &discounts).unwrap(),
            get_price(quantity, &discounts).unwrap().final_price
        );
    }
    assert_eq!(calculate_price(1, &Vec::new()).unwrap(), DOMAIN_PRICE_BTC);
    let half = vec![percent("a", 50 * PERCENT, true)];
    assert_eq!(calculate_price(1, &half).unwrap_err(), PricingError::BelowMinimum);
}
