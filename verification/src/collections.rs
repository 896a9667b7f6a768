//! What a buyer's wallets own, as the collection service reports it.
//!
//! Amounts are whole numbers of units of 10^-8.

use crate::discount::{
    holding_views, HoldingView, COLLECTION_TYPE_BRC20, COLLECTION_TYPE_COLLECTION,
};
use vstd::prelude::*;

verus! {

/// A holding of one collection.
#[derive(Debug, Clone, PartialEq, Eq)]
pub struct Collection {
    pub amount: u64,
    pub ticker: String,
}

/// A holding of one collection of fungible tokens.
#[derive(Debug, Clone, PartialEq, Eq)]
pub struct Brc20Collection {
    pub amount: u64,
    pub ticker: String,
}

/// What the wallets of a buyer own: fungible tokens, and items of
/// collections.
#[derive(Debug, Clone, PartialEq, Eq)]
pub struct WalletCollections {
    pub brc20s: Vec<Collection>,
    pub collections: Vec<Collection>,
}

/// What `str::to_uppercase` makes of a text.
pub uninterp spec fn uppercase(text: Seq<char>) -> Seq<char>;

/// `str::to_uppercase`. The contract only names the outcome.
#[verifier::external_body]
fn to_uppercase(text: &str) -> (upper: String)
    ensures
        upper@ == uppercase(text@),
{
    text.to_uppercase()
}

impl Collection {
    /// The holding that the collection service reports as a ticker and an
    /// amount. Tickers are kept in upper case.
    pub fn from(tuple: (String, u64)) -> (holding: Collection)
        ensures
            holding.amount == tuple.1,
            holding.ticker@ == uppercase(tuple.0@),
    {
        Collection { amount: tuple.1, ticker: to_uppercase(tuple.0.as_str()) }
    }
}

/// The holdings that the collection service reports as tickers and amounts,
/// in their order.
pub fn owned_collections(reported: Vec<(String, u64)>) -> (holdings: Vec<Collection>)
    ensures
        holdings.len() == reported.len(),
        forall|i: int|
            0 <= i < reported.len() ==> {
                &&& (#[trigger] holdings[i]).amount == reported[i].1
                &&& holdings[i].ticker@ == uppercase(reported[i].0@)
            },
{
    let mut holdings: Vec<Collection> = Vec::new();
    let mut i: usize = 0;
    while i < reported.len()
        invariant
            i <= reported.len(),
            holdings.len() == i,
            forall|k: int|
                0 <= k < i ==> {
                    &&& (#[trigger] holdings[k]).amount == reported[k].1
                    &&& holdings[k].ticker@ == uppercase(reported[k].0@)
                },
        decreases reported.len() - i,
    {
        holdings.push(
            Collection { amount: reported[i].1, ticker: to_uppercase(reported[i].0.as_str()) },
        );
        i += 1;
    }
    holdings
}

/// The holdings of `brc20s` followed by those of `collections`, each with
/// the kind of its collection.
pub open spec fn holdings_of(brc20s: Seq<Collection>, collections: Seq<Collection>) -> Seq<
    HoldingView,
> {
    Seq::new(
        brc20s.len() + collections.len(),
        |i: int|
            if i < brc20s.len() {
                HoldingView {
                    collection_id: brc20s[i].ticker@,
                    collection_type: COLLECTION_TYPE_BRC20,
                    owned: brc20s[i].amount,
                }
            } else {
                HoldingView {
                    collection_id: collections[i - brc20s.len()].ticker@,
                    collection_type: COLLECTION_TYPE_COLLECTION,
                    owned: collections[i - brc20s.len()].amount,
                }
            },
    )
}

/// The holdings to look discounts up for: the fungible tokens first, then
/// the items of collections, in the order in which they were reported.
pub fn collection_query(owned: &WalletCollections) -> (query: Vec<(String, i16, u64)>)
    ensures
        holding_views(query@) == holdings_of(owned.brc20s@, owned.collections@),
{
    let mut query: Vec<(String, i16, u64)> = Vec::new();
    let mut i: usize = 0;
    while i < owned.brc20s.len()
        invariant
            i <= owned.brc20s.len(),
            query.len() == i,
            forall|k: int|
                0 <= k < i ==> {
                    &&& (#[trigger] query[k]).0@ == owned.brc20s[k].ticker@
                    &&& query[k].1 == COLLECTION_TYPE_BRC20
                    &&& query[k].2 == owned.brc20s[k].amount
                },
        decreases owned.brc20s.len() - i,
    {
        query.push((owned.brc20s[i].ticker.clone(), COLLECTION_TYPE_BRC20, owned.brc20s[i].amount));
        i += 1;
    }
    let mut j: usize = 0;
    while j < owned.collections.len()
        invariant
            j <= owned.collections.len(),
            query.len() == owned.brc20s.len() + j,
            forall|k: int|
                0 <= k < owned.brc20s.len() ==> {
                    &&& (#[trigger] query[k]).0@ == owned.brc20s[k].ticker@
                    &&& query[k].1 == COLLECTION_TYPE_BRC20
                    &&& query[k].2 == owned.brc20s[k].amount
                },
            forall|k: int|
                owned.brc20s.len() <= k < owned.brc20s.len() + j ==> {
                    &&& (#[trigger] query[k]).0@ == owned.collections[k - owned.brc20s.len()].ticker@
                    &&& query[k].1 == COLLECTION_TYPE_COLLECTION
                    &&& query[k].2 == owned.collections[k - owned.brc20s.len()].amount
                },
        decreases owned.collections.len() - j,
    {
        query.push(
            (
                owned.collections[j].ticker.clone(),
                COLLECTION_TYPE_COLLECTION,
                owned.collections[j].amount,
            ),
        );
        j += 1;
    }
    assert(holding_views(query@) =~= holdings_of(
        owned.brc20s@,
        owned.collections@,
    ));
    query
}

} // verus!
