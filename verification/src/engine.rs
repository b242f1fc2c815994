//! Market identity and the per-market registry.

use vstd::prelude::*;
use vstd::string::StringExecFns;

use crate::orderbook::book_after_add;
use crate::orderbook::Order;
use crate::orderbook::OrderBook;

verus! {

/// The identity of one market: a base symbol and a quote symbol. Two pairs
/// name the same market exactly when both symbols agree.
#[derive(Debug, Clone)]
pub struct TradingPair {
    pub base: String,
    pub quote: String,
}

/// The canonical text of the market named by a base and a quote symbol:
/// `base_quote`.
pub open spec fn pair_text(base: Seq<char>, quote: Seq<char>) -> Seq<char> {
    base + "_"@ + quote
}

impl TradingPair {
    /// The identity of a market is the pair of its symbols' contents.
    pub open spec fn key(self) -> (Seq<char>, Seq<char>) {
        (self.base@, self.quote@)
    }

    pub fn new(base: String, quote: String) -> (r: TradingPair)
        ensures
            r.base == base,
            r.quote == quote,
    {
        TradingPair { base, quote }
    }

    /// The canonical display form `base_quote`.
    pub fn to_string(self) -> (r: String)
        ensures
            r@ == pair_text(self.base@, self.quote@),
    {
        let mut s = self.base;
        s.append("_");
        s.append(self.quote.as_str());
        s
    }
}

impl PartialEq for TradingPair {
    fn eq(&self, other: &TradingPair) -> (r: bool) {
        self.base == other.base && self.quote == other.quote
    }
}

impl vstd::std_specs::cmp::PartialEqSpecImpl for TradingPair {
    open spec fn obeys_eq_spec() -> bool {
        true
    }

    open spec fn eq_spec(&self, other: &TradingPair) -> bool {
        self.base@ == other.base@ && self.quote@ == other.quote@
    }
}

impl Eq for TradingPair {

}

/// The text of the failure reported when an order targets a market that no
/// book is registered for.
pub open spec fn missing_market_text(pair: TradingPair) -> Seq<char> {
    "the orderbook for the given trading pair ("@ + pair_text(pair.base@, pair.quote@)
        + ") does not exist"@
}

/// The registry of active markets: each registered trading pair with its
/// order book.
pub struct MatchingEngine {
    pub orderbooks: Vec<(TradingPair, OrderBook)>,
}

impl MatchingEngine {
    /// No two entries name the same market, and every book is well formed.
    pub open spec fn wf(self) -> bool {
        &&& forall|i: int, j: int|
            #![trigger self.orderbooks@[i], self.orderbooks@[j]]
            0 <= i < j < self.orderbooks@.len() ==> self.orderbooks@[i].0.key()
                != self.orderbooks@[j].0.key()
        &&& forall|i: int|
            0 <= i < self.orderbooks@.len() ==> (#[trigger] self.orderbooks@[i]).1.wf()
    }

    /// Whether a market with this identity is registered.
    pub open spec fn has_market(self, key: (Seq<char>, Seq<char>)) -> bool {
        exists|i: int|
            0 <= i < self.orderbooks@.len() && (#[trigger] self.orderbooks@[i]).0.key() == key
    }

    /// An engine with no market registered.
    pub fn new() -> (r: MatchingEngine)
        ensures
            r.orderbooks@ =~= Seq::<(TradingPair, OrderBook)>::empty(),
            r.wf(),
    {
        MatchingEngine { orderbooks: Vec::new() }
    }

    /// The index of the book registered for `pair`, if any.
    fn find_book(&self, pair: &TradingPair) -> (r: Option<usize>)
        ensures
            match r {
                Some(i) => 0 <= i < self.orderbooks@.len() && self.orderbooks@[i as int].0.key()
                    == pair.key(),
                None => !self.has_market(pair.key()),
            },
    {
        let mut i: usize = 0;
        while i < self.orderbooks.len()
            invariant
                0 <= i <= self.orderbooks@.len(),
                forall|j: int|
                    0 <= j < i ==> (#[trigger] self.orderbooks@[j]).0.key() != pair.key(),
            decreases self.orderbooks@.len() - i,
        {
            if self.orderbooks[i].0 == *pair {
                return Some(i);
            }
            i = i + 1;
        }
        None
    }

    /// Registers a fresh, empty book for `pair`. Registering a pair that
    /// already has a book discards that book and starts over with an empty
    /// one: re-registration is a reset, not an error.
    pub fn add_new_market(&mut self, pair: TradingPair)
        requires
            old(self).wf(),
        ensures
            final(self).wf(),
            final(self).has_market(pair.key()),
            old(self).has_market(pair.key()) ==> {
                &&& final(self).orderbooks@.len() == old(self).orderbooks@.len()
                &&& forall|k: int|
                    0 <= k < old(self).orderbooks@.len() && (#[trigger] old(self).orderbooks@[k]).0.key()
                        != pair.key() ==> final(self).orderbooks@[k] == old(self).orderbooks@[k]
                &&& forall|k: int|
                    0 <= k < old(self).orderbooks@.len() && (#[trigger] old(self).orderbooks@[k]).0.key()
                        == pair.key() ==> final(self).orderbooks@[k].0 == pair
                        && final(self).orderbooks@[k].1.asks@.len() == 0
                        && final(self).orderbooks@[k].1.bids@.len() == 0
            },
            !old(self).has_market(pair.key()) ==> {
                &&& final(self).orderbooks@.len() == old(self).orderbooks@.len() + 1
                &&& forall|k: int|
                    0 <= k < old(self).orderbooks@.len() ==> #[trigger] final(self).orderbooks@[k]
                        == old(self).orderbooks@[k]
                &&& final(self).orderbooks@.last().0 == pair
                &&& final(self).orderbooks@.last().1.asks@.len() == 0
                &&& final(self).orderbooks@.last().1.bids@.len() == 0
            },
    {
        let ghost pk = pair.key();
        match self.find_book(&pair) {
            Some(i) => {
                self.orderbooks[i] = (pair, OrderBook::new());
                proof {
                    assert(self.orderbooks@[i as int].0.key() == pk);
                }
            },
            None => {
                self.orderbooks.push((pair, OrderBook::new()));
                proof {
                    let n = self.orderbooks@.len() - 1;
                    assert(self.orderbooks@[n].0.key() == pk);
                }
            },
        }
    }

    /// Looks the market up and, when it is registered, places the limit
    /// order in its book; no other book changes. When it is not registered
    /// nothing changes and the failure names the market by its canonical
    /// form — no book materializes as a side effect.
    pub fn place_limit_order(&mut self, pair: TradingPair, price: u64, order: Order) -> (r: Result<
        (),
        String,
    >)
        requires
            old(self).wf(),
        ensures
            final(self).wf(),
            r is Ok <==> old(self).has_market(pair.key()),
            old(self).has_market(pair.key()) ==> {
                &&& final(self).orderbooks@.len() == old(self).orderbooks@.len()
                &&& forall|k: int|
                    0 <= k < old(self).orderbooks@.len() ==> (#[trigger] final(self).orderbooks@[k]).0
                        == old(self).orderbooks@[k].0
                &&& forall|k: int|
                    0 <= k < old(self).orderbooks@.len() && (#[trigger] old(self).orderbooks@[k]).0.key()
                        != pair.key() ==> final(self).orderbooks@[k].1 == old(self).orderbooks@[k].1
                &&& forall|k: int|
                    0 <= k < old(self).orderbooks@.len() && (#[trigger] old(self).orderbooks@[k]).0.key()
                        == pair.key() ==> book_after_add(
                        old(self).orderbooks@[k].1,
                        final(self).orderbooks@[k].1,
                        price,
                        order,
                    )
            },
            !old(self).has_market(pair.key()) ==> *final(self) == *old(self) && (r matches Err(e)
                && e@ == missing_market_text(pair)),
    {
        match self.find_book(&pair) {
            Some(i) => {
                self.orderbooks[i].1.add_limit_order(price, order);
                Ok(())
            },
            None => {
                let ps = pair.to_string();
                let text = String::from_str("the orderbook for the given trading pair (");
                let text = text.concat(ps.as_str());
                let text = text.concat(") does not exist");
                Err(text)
            },
        }
    }
}

} // verus!
