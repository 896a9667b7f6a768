//! Which loyalty discounts a buyer is granted for the collections it owns.
//!
//! A discount rule is granted for one collection and asks for a minimum
//! holding. For each collection that the buyer owns, the rule with the
//! highest minimum that the holding reaches applies, and where several have
//! that minimum, the first of them. A rule applies once, however many of the
//! buyer's holdings lead to it.

use crate::pricing::{
    discount_views, price, quoted, DiscountView, LoyaltyDiscount, PricingError,
    PricingResponseObject, QuoteView,
};
use vstd::prelude::*;

verus! {

/// The kind of a collection of fungible tokens.
pub const COLLECTION_TYPE_BRC20: i16 = 0;

/// The kind of a collection of single items.
pub const COLLECTION_TYPE_COLLECTION: i16 = 1;

/// A discount rule as it is configured.
#[derive(Debug, Clone, PartialEq, Eq)]
pub struct DiscountRule {
    pub id: i64,
    pub collection_id: String,
    pub collection_type: i16,
    /// The least holding the rule asks for; `None` asks for nothing.
    pub collection_minimum_owned: Option<u64>,
    pub amount: u64,
    pub currency: String,
    pub message: String,
    pub stackable: bool,
}

/// The mathematical value of a [`DiscountRule`].
pub struct RuleView {
    pub id: i64,
    pub collection_id: Seq<char>,
    pub collection_type: i16,
    pub collection_minimum_owned: Option<u64>,
    pub amount: u64,
    pub currency: Seq<char>,
    pub message: Seq<char>,
    pub stackable: bool,
}

impl View for DiscountRule {
    type V = RuleView;

    open spec fn view(&self) -> RuleView {
        RuleView {
            id: self.id,
            collection_id: self.collection_id@,
            collection_type: self.collection_type,
            collection_minimum_owned: self.collection_minimum_owned,
            amount: self.amount,
            currency: self.currency@,
            message: self.message@,
            stackable: self.stackable,
        }
    }
}

/// A holding: the collection, its kind, and how much of it the buyer owns.
pub struct HoldingView {
    pub collection_id: Seq<char>,
    pub collection_type: i16,
    pub owned: u64,
}

/// The values of a list of rules, in their order.
pub open spec fn rule_views(rules: Seq<DiscountRule>) -> Seq<RuleView> {
    Seq::new(rules.len(), |i: int| rules[i]@)
}

/// The value of a holding.
pub open spec fn holding_view(holding: (String, i16, u64)) -> HoldingView {
    HoldingView { collection_id: holding.0@, collection_type: holding.1, owned: holding.2 }
}

/// The values of a list of holdings, in their order.
pub open spec fn holding_views(holdings: Seq<(String, i16, u64)>) -> Seq<HoldingView> {
    Seq::new(holdings.len(), |i: int| holding_view(holdings[i]))
}

impl RuleView {
    /// The least holding the rule asks for.
    pub open spec fn threshold(self) -> u64 {
        match self.collection_minimum_owned {
            Some(least) => least,
            None => 0,
        }
    }

    /// The rule is granted for the collection of `holding`, and `holding`
    /// reaches its minimum.
    pub open spec fn qualifies(self, holding: HoldingView) -> bool {
        &&& self.collection_id == holding.collection_id
        &&& self.collection_type == holding.collection_type
        &&& self.threshold() <= holding.owned
    }

    /// The discount that the rule grants.
    pub open spec fn discount(self) -> DiscountView {
        DiscountView {
            collection_id: self.collection_id,
            amount: self.amount,
            currency: self.currency,
            message: self.message,
            stackable: self.stackable,
        }
    }
}

/// Of the first `n` rules, rule `i` is the best tier for `holding`: it
/// qualifies, with a higher minimum than every qualifying rule before it and
/// no lower one than every qualifying rule after it.
pub open spec fn best_tier(rules: Seq<RuleView>, holding: HoldingView, n: int, i: int) -> bool {
    &&& 0 <= i < n
    &&& rules[i].qualifies(holding)
    &&& forall|j: int|
        0 <= j < n && (#[trigger] rules[j]).qualifies(holding) ==> {
            &&& j < i ==> rules[j].threshold() < rules[i].threshold()
            &&& j > i ==> rules[j].threshold() <= rules[i].threshold()
        }
}

/// The best tier for `holding`, if a rule qualifies.
pub open spec fn tier_for(rules: Seq<RuleView>, holding: HoldingView) -> Option<int> {
    if exists|i: int| best_tier(rules, holding, rules.len() as int, i) {
        Some(choose|i: int| best_tier(rules, holding, rules.len() as int, i))
    } else {
        None
    }
}

/// Entry `k` of `chosen` is the rule with id `id`.
pub open spec fn chosen_at(rules: Seq<RuleView>, chosen: Seq<int>, id: i64, k: int) -> bool {
    0 <= k < chosen.len() && rules[chosen[k]].id == id
}

/// The rules that apply to `holdings`, by their place in `rules`: the best
/// tier of each holding, in the order of the holdings, each rule once.
pub open spec fn matched(rules: Seq<RuleView>, holdings: Seq<HoldingView>) -> Seq<int>
    decreases holdings.len(),
{
    if holdings.len() == 0 {
        Seq::empty()
    } else {
        let before = matched(rules, holdings.drop_last());
        match tier_for(rules, holdings.last()) {
            Some(i) => if exists|k: int| chosen_at(rules, before, rules[i].id, k) {
                before
            } else {
                before.push(i)
            },
            None => before,
        }
    }
}

/// The discounts that apply to `holdings`.
pub open spec fn matched_discounts(rules: Seq<RuleView>, holdings: Seq<HoldingView>) -> Seq<
    DiscountView,
> {
    Seq::new(
        matched(rules, holdings).len(),
        |k: int| rules[matched(rules, holdings)[k]].discount(),
    )
}

/// Every rule that applies qualifies for one of the holdings, and no rule
/// applies twice.
pub proof fn lemma_matched_rules_qualify(rules: Seq<RuleView>, holdings: Seq<HoldingView>)
    ensures
        forall|k: int|
            0 <= k < matched(rules, holdings).len() ==> {
                let i = #[trigger] matched(rules, holdings)[k];
                &&& 0 <= i < rules.len()
                &&& exists|h: int| 0 <= h < holdings.len() && rules[i].qualifies(holdings[h])
            },
        forall|k: int, m: int|
            0 <= k < m < matched(rules, holdings).len() ==> rules[matched(rules, holdings)[k]].id
                != rules[matched(rules, holdings)[m]].id,
    decreases holdings.len(),
{
    if holdings.len() > 0 {
        let fewer = holdings.drop_last();
        let before = matched(rules, fewer);
        let all = matched(rules, holdings);
        lemma_matched_rules_qualify(rules, fewer);
        assert forall|k: int| 0 <= k < all.len() implies {
            let i = #[trigger] all[k];
            &&& 0 <= i < rules.len()
            &&& exists|h: int| 0 <= h < holdings.len() && rules[i].qualifies(holdings[h])
        } by {
            let i = all[k];
            if k < before.len() {
                assert(all[k] == before[k]);
                let h = choose|h: int| 0 <= h < fewer.len() && rules[i].qualifies(fewer[h]);
                assert(rules[i].qualifies(holdings[h]));
            } else {
                assert(best_tier(rules, holdings.last(), rules.len() as int, i));
                assert(rules[i].qualifies(holdings[holdings.len() - 1]));
            }
        }
        assert forall|k: int, m: int| 0 <= k < m < all.len() implies rules[all[k]].id
            != rules[all[m]].id by {
            if m < before.len() {
                assert(rules[before[k]].id != rules[before[m]].id);
            } else {
                assert(!chosen_at(rules, before, rules[all[m]].id, k));
            }
        }
    }
}

/// The best tier for a holding among `rules`.
fn find_tier(rules: &Vec<DiscountRule>, holding: &(String, i16, u64)) -> (best: Option<usize>)
    ensures
        match best {
            Some(i) => tier_for(rule_views(rules@), holding_view(*holding)) == Some(i as int),
            None => tier_for(rule_views(rules@), holding_view(*holding)) is None,
        },
{
    let ghost rs = rule_views(rules@);
    let ghost h = holding_view(*holding);
    let mut best: Option<usize> = None;
    let mut least: u64 = 0;
    let mut n: usize = 0;
    while n < rules.len()
        invariant
            n <= rules.len(),
            rs == rule_views(rules@),
            h == holding_view(*holding),
            match best {
                Some(b) => best_tier(rs, h, n as int, b as int) && least == rs[b as int].threshold(),
                None => forall|j: int| 0 <= j < n ==> !(#[trigger] rs[j]).qualifies(h),
            },
        decreases rules.len() - n,
    {
        let threshold = match rules[n].collection_minimum_owned {
            Some(t) => t,
            None => 0,
        };
        if rules[n].collection_type == holding.1 && threshold <= holding.2
            && rules[n].collection_id == holding.0 {
            assert(rs[n as int].qualifies(h));
            if best.is_none() || threshold > least {
                best = Some(n);
                least = threshold;
            }
        } else {
            assert(!rs[n as int].qualifies(h));
        }
        n += 1;
    }
    proof {
        match best {
            Some(b) => {
                let w = choose|w: int| best_tier(rs, h, rs.len() as int, w);
                assert(best_tier(rs, h, rs.len() as int, b as int));
                if w < b {
                    assert(rs[w].qualifies(h));
                } else if w > b {
                    assert(rs[b as int].qualifies(h));
                }
            },
            None => {
                assert forall|w: int| !best_tier(rs, h, rs.len() as int, w) by {
                    if 0 <= w < rs.len() {
                        assert(!rs[w].qualifies(h));
                    }
                }
            },
        }
    }
    best
}

/// The discounts that the buyer is granted for `collections`, its holdings,
/// under `rules`: for each holding the best tier that it reaches, in the
/// order of the holdings, each rule once.
pub fn get_loyalty_discounts_for_collections(
    rules: &Vec<DiscountRule>,
    collections: &Vec<(String, i16, u64)>,
) -> (discounts: Vec<LoyaltyDiscount>)
    ensures
        discount_views(discounts@) == matched_discounts(
            rule_views(rules@),
            holding_views(collections@),
        ),
{
    let ghost rs = rule_views(rules@);
    let ghost hs = holding_views(collections@);
    let mut chosen: Vec<usize> = Vec::new();
    let mut discounts: Vec<LoyaltyDiscount> = Vec::new();
    let mut c: usize = 0;
    assert(hs.take(0) =~= Seq::empty());
    assert(Seq::new(chosen@.len(), |k: int| chosen@[k] as int) =~= matched(rs, hs.take(0)));
    while c < collections.len()
        invariant
            c <= collections.len(),
            rs == rule_views(rules@),
            hs == holding_views(collections@),
            chosen.len() == discounts.len(),
            Seq::new(chosen@.len(), |k: int| chosen@[k] as int) == matched(rs, hs.take(c as int)),
            forall|k: int| 0 <= k < chosen.len() ==> (#[trigger] chosen[k]) < rules.len(),
            forall|k: int|
                0 <= k < chosen.len() ==> (#[trigger] discounts[k])@
                    == rs[chosen[k] as int].discount(),
        decreases collections.len() - c,
    {
        let ghost before = matched(rs, hs.take(c as int));
        assert(hs.take(c + 1).drop_last() =~= hs.take(c as int));
        assert(hs.take(c + 1).last() == hs[c as int]);
        match find_tier(rules, &collections[c]) {
            None => {
                assert(tier_for(rs, hs[c as int]) is None);
                assert(matched(rs, hs.take(c + 1)) == before);
            },
            Some(i) => {
                assert(tier_for(rs, hs[c as int]) == Some(i as int));
                let id = rules[i].id;
                let mut known = false;
                let mut k: usize = 0;
                while k < chosen.len()
                    invariant
                        k <= chosen.len(),
                        i < rules.len(),
                        id == rules[i as int].id,
                        rs == rule_views(rules@),
                        before == Seq::new(chosen@.len(), |k: int| chosen@[k] as int),
                        forall|q: int| 0 <= q < chosen.len() ==> (#[trigger] chosen[q]) < rules.len(),
                        known <==> exists|q: int| 0 <= q < k && chosen_at(rs, before, id, q),
                    decreases chosen.len() - k,
                {
                    if rules[chosen[k]].id == id {
                        assert(chosen_at(rs, before, id, k as int));
                        known = true;
                    }
                    k += 1;
                }
                assert(known <==> exists|q: int| chosen_at(rs, before, id, q));
                assert(id == rs[i as int].id);
                if known {
                    assert(matched(rs, hs.take(c + 1)) == before);
                } else {
                    assert(matched(rs, hs.take(c + 1)) == before.push(i as int));
                }
                if !known {
                    chosen.push(i);
                    discounts.push(
                        LoyaltyDiscount(
                            rules[i].collection_id.clone(),
                            rules[i].amount,
                            rules[i].currency.clone(),
                            rules[i].message.clone(),
                            rules[i].stackable,
                        ),
                    );
                    assert(Seq::new(chosen@.len(), |k: int| chosen@[k] as int) =~= before.push(
                        i as int,
                    ));
                }
            },
        }
        c += 1;
    }
    assert(hs.take(c as int) =~= hs);
    assert(discount_views(discounts@) =~= matched_discounts(rs, hs));
    discounts
}

/// Quotes the price of `quantity` units at `unit_price` satoshis each for a
/// buyer with the holdings `collections`, under the configured `rules`: the
/// discounts that the holdings are granted apply. A price under `minimum` is
/// refused.
pub fn price_for_collections(
    unit_price: u64,
    quantity: u32,
    collections: &Vec<(String, i16, u64)>,
    rules: &Vec<DiscountRule>,
    minimum: u64,
) -> (r: Result<PricingResponseObject, PricingError>)
    ensures
        match r {
            Ok(quote) => quoted(
                unit_price,
                quantity,
                matched_discounts(rule_views(rules@), holding_views(collections@)),
                minimum,
            ) == Ok::<QuoteView, PricingError>(quote@),
            Err(e) => quoted(
                unit_price,
                quantity,
                matched_discounts(rule_views(rules@), holding_views(collections@)),
                minimum,
            ) == Err::<QuoteView, PricingError>(e),
        },
{
    let discounts = get_loyalty_discounts_for_collections(rules, collections);
    price(unit_price, quantity, &discounts, minimum)
}

} // verus!
