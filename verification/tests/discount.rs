use domain_pay::discount::{
    get_loyalty_discounts_for_collections, price_for_collections, DiscountRule,
    COLLECTION_TYPE_BRC20, COLLECTION_TYPE_COLLECTION,
};
use domain_pay::pricing::PricingError;

const PERCENT: u64 = 100_000_000;

fn rule(id: i64, collection: &str, kind: i16, least: Option<u64>, amount: u64) -> DiscountRule {
    DiscountRule {
        id,
        collection_id: collection.to_string(),
        collection_type: kind,
        collection_minimum_owned: least,
        amount,
        currency: "%".to_string(),
        message: format!("rule {}", id),
        stackable: true,
    }
}

fn tiers() -> Vec<DiscountRule> {
    vec![
        rule(1, "ORDI", COLLECTION_TYPE_BRC20, None, 5 * PERCENT),
        rule(2, "ORDI", COLLECTION_TYPE_BRC20, Some(100), 10 * PERCENT),
        rule(3, "ORDI", COLLECTION_TYPE_BRC20, Some(1_000), 20 * PERCENT),
        rule(4, "bit-apes", COLLECTION_TYPE_COLLECTION, Some(1), 15 * PERCENT),
        rule(5, "ORDI", COLLECTION_TYPE_COLLECTION, Some(1), 1 * PERCENT),
    ]
}

fn messages(holdings: Vec<(String, i16, u64)>) -> Vec<String> {
    get_loyalty_discounts_for_collections(&tiers(), &holdings).into_iter().map(|d| d.3).collect()
}

#[test]
fn the_best_tier_that_a_holding_reaches_applies() {
    assert_eq!(messages(vec![("ORDI".into(), COLLECTION_TYPE_BRC20, 0)]), vec!["rule 1"]);
    assert_eq!(messages(vec![("ORDI".into(), COLLECTION_TYPE_BRC20, 99)]), vec!["rule 1"]);
    assert_eq!(messages(vec![("ORDI".into(), COLLECTION_TYPE_BRC20, 100)]), vec!["rule 2"]);
    assert_eq!(messages(vec![("ORDI".into(), COLLECTION_TYPE_BRC20, 999)]), vec!["rule 2"]);
    assert_eq!(messages(vec![("ORDI".into(), COLLECTION_TYPE_BRC20, 1_000)]), vec!["rule 3"]);
    assert_eq!(messages(vec![("ORDI".into(), COLLECTION_TYPE_BRC20, u64::MAX)]), vec!["rule 3"]);
}

#[test]
fn the_discount_carries_what_the_rule_grants() {
    let found = get_loyalty_discounts_for_collections(
        &tiers(),
        &vec![("ORDI".into(), COLLECTION_TYPE_BRC20, 150)],
    );
    assert_eq!(found.len(), 1);
    assert_eq!(found[0].0, "ORDI");
    assert_eq!(found[0].1, 10 * PERCENT);
    assert_eq!(found[0].2, "%");
    assert_eq!(found[0].3, "rule 2");
    assert!(found[0].4);
}

#[test]
fn a_rule_is_for_one_collection_of_one_kind() {
    assert!(messages(vec![("ordi".into(), COLLECTION_TYPE_BRC20, 5_000)]).is_empty());
    assert!(messages(vec![("bit-apes".into(), COLLECTION_TYPE_BRC20, 5)]).is_empty());
    assert!(messages(vec![("bit-apes".into(), COLLECTION_TYPE_COLLECTION, 0)]).is_empty());
    assert_eq!(messages(vec![("ORDI".into(), COLLECTION_TYPE_COLLECTION, 5_000)]), vec!["rule 5"]);
    assert!(messages(Vec::new()).is_empty());
}

#[test]
fn discounts_come_in_the_order_of_the_holdings_and_each_rule_once() {
    assert_eq!(
        messages(vec![
            ("bit-apes".into(), COLLECTION_TYPE_COLLECTION, 2),
            ("other".into(), COLLECTION_TYPE_COLLECTION, 9),
            ("ORDI".into(), COLLECTION_TYPE_BRC20, 150),
            ("bit-apes".into(), COLLECTION_TYPE_COLLECTION, 7),
            ("ORDI".into(), COLLECTION_TYPE_BRC20, 5_000),
            ("ORDI".into(), COLLECTION_TYPE_BRC20, 120),
        ]),
        vec!["rule 4", "rule 2", "rule 3"]
    );
}

#[test]
fn of_rules_with_the_same_minimum_the_first_applies() {
    let rules = vec![
        rule(7, "X", COLLECTION_TYPE_BRC20, Some(0), PERCENT),
        rule(8, "X", COLLECTION_TYPE_BRC20, None, 2 * PERCENT),
        rule(9, "X", COLLECTION_TYPE_BRC20, Some(10), 3 * PERCENT),
        rule(10, "X", COLLECTION_TYPE_BRC20, Some(10), 4 * PERCENT),
    ];
    let low = get_loyalty_discounts_for_collections(
        &rules,
        &vec![("X".into(), COLLECTION_TYPE_BRC20, 5)],
    );
    assert_eq!(low.len(), 1);
    assert_eq!(low[0].3, "rule 7");
    let high = get_loyalty_discounts_for_collections(
        &rules,
        &vec![("X".into(), COLLECTION_TYPE_BRC20, 50)],
    );
    assert_eq!(high.len(), 1);
    assert_eq!(high[0].3, "rule 9");
}

#[test]
fn the_price_for_holdings_applies_the_discounts_they_are_granted() {
    let holdings = vec![
        ("ORDI".to_string(), COLLECTION_TYPE_BRC20, 150),
        ("bit-apes".to_string(), COLLECTION_TYPE_COLLECTION, 1),
    ];
    // 70 000 * (100 % - 10 % - 15 %)
    let quote = price_for_collections(70_000, 1, &holdings, &tiers(), 40_000).unwrap();
    assert_eq!(quote.final_price, 52_500);
    assert_eq!(quote.stackable_loyalty_discounts.len(), 2);
    let none = price_for_collections(70_000, 1, &Vec::new(), &tiers(), 40_000).unwrap();
    assert_eq!(none.final_price, 70_000);
    let rich = vec![
        ("ORDI".to_string(), COLLECTION_TYPE_BRC20, 1_000),
        ("bit-apes".to_string(), COLLECTION_TYPE_COLLECTION, 1),
        ("ORDI".to_string(), COLLECTION_TYPE_COLLECTION, 1),
        ("ORDI".to_string(), COLLECTION_TYPE_BRC20, 100),
    ];
    // 20 % + 15 % + 1 % + 10 % off leaves 37 800
    assert_eq!(
        price_for_collections(70_000, 1, &rich, &tiers(), 40_000).unwrap_err(),
        PricingError::BelowMinimum
    );
}
