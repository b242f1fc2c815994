//! Price levels and order books.
//!
//! An [`Order`] is a side plus a remaining fixed-point size. A [`Limit`] is
//! one price level: the FIFO queue of all resting orders at one exact price.
//! An [`OrderBook`] keeps one sequence of levels per side, each held sorted
//! in that side's priority order (asks ascending, bids descending), so the
//! best level is always first.

use vstd::prelude::*;

verus! {

/// The side of an order: a bid buys, an ask sells.
#[derive(Debug, Clone, Copy)]
pub enum BidOrAsk {
    Bid,
    Ask,
}

/// A resting or incoming order: a side and the remaining size, in the
/// caller's fixed-point minor unit. The size only ever decreases, and only
/// through the fill operations.
#[derive(Debug)]
pub struct Order {
    pub size: u64,
    pub bid_or_ask: BidOrAsk,
}

/// One price level: every resting order at one exact price, in insertion
/// order.
#[derive(Debug)]
pub struct Limit {
    pub price: u64,
    pub orders: Vec<Order>,
}

/// The remaining sizes of a queue of orders, in queue order.
pub open spec fn sizes_of(orders: Seq<Order>) -> Seq<u64> {
    orders.map_values(|o: Order| o.size)
}

/// The sum of a sequence of sizes.
pub open spec fn sum_sizes(sizes: Seq<u64>) -> int
    decreases sizes.len(),
{
    if sizes.len() == 0 {
        0
    } else {
        sizes[0] + sum_sizes(sizes.drop_first())
    }
}

/// Appending a size adds it to the sum.
pub proof fn lemma_sum_sizes_push(sizes: Seq<u64>, x: u64)
    ensures
        sum_sizes(sizes.push(x)) == sum_sizes(sizes) + x,
    decreases sizes.len(),
{
    if sizes.len() == 0 {
        assert(sizes.push(x).drop_first() =~= Seq::<u64>::empty());
        assert(sizes.push(x)[0] == x);
        assert(sum_sizes(Seq::<u64>::empty()) == 0);
        assert(sum_sizes(sizes.push(x)) == x);
    } else {
        assert(sizes.push(x).drop_first() =~= sizes.drop_first().push(x));
        assert(sizes.push(x)[0] == sizes[0]);
        lemma_sum_sizes_push(sizes.drop_first(), x);
        assert(sum_sizes(sizes.push(x)) == sizes[0] + sum_sizes(sizes.drop_first().push(x)));
    }
}

/// A sum of sizes is bounded by the length times the largest size value.
pub proof fn lemma_sum_sizes_bound(sizes: Seq<u64>)
    ensures
        0 <= sum_sizes(sizes) <= sizes.len() * (u64::MAX as int),
    decreases sizes.len(),
{
    if sizes.len() > 0 {
        lemma_sum_sizes_bound(sizes.drop_first());
        assert(sizes.len() * (u64::MAX as int) == (sizes.len() - 1) * (u64::MAX as int) + (
        u64::MAX as int)) by (nonlinear_arith);
    }
}

/// What filling a market order against one FIFO queue leaves behind.
///
/// `sizes` are the queue's remaining sizes in queue order and `market` is the
/// market order's remaining size. The front order is driven to zero whenever
/// the market order covers it, and otherwise absorbs the whole market order;
/// the walk stops as soon as the market order is exhausted. The result is the
/// queue's sizes afterwards, paired with the market order's remaining size.
pub open spec fn fill_against(sizes: Seq<u64>, market: u64) -> (Seq<u64>, u64)
    decreases sizes.len(),
{
    if sizes.len() == 0 || market == 0 {
        (sizes, market)
    } else if market >= sizes[0] {
        let rec = fill_against(sizes.drop_first(), (market - sizes[0]) as u64);
        (seq![0u64] + rec.0, rec.1)
    } else {
        (seq![(sizes[0] - market) as u64] + sizes.drop_first(), 0u64)
    }
}

/// Conservation of matched quantity, and no order ever driven below zero.
///
/// Filling never increases any resting order's size, never increases the
/// market order's size, and transfers size one for one: the total size taken
/// out of the resting queue equals the size taken off the market order.
pub proof fn lemma_fill_against_conserves(sizes: Seq<u64>, market: u64)
    ensures
        fill_against(sizes, market).0.len() == sizes.len(),
        forall|k: int|
            0 <= k < sizes.len() ==> #[trigger] fill_against(sizes, market).0[k] <= sizes[k],
        fill_against(sizes, market).1 <= market,
        sum_sizes(sizes) - sum_sizes(fill_against(sizes, market).0) == market - fill_against(
            sizes,
            market,
        ).1,
    decreases sizes.len(),
{
    let r = fill_against(sizes, market);
    if sizes.len() == 0 || market == 0 {
    } else if market >= sizes[0] {
        let m2 = (market - sizes[0]) as u64;
        lemma_fill_against_conserves(sizes.drop_first(), m2);
        let rec = fill_against(sizes.drop_first(), m2);
        assert(r.0 == seq![0u64] + rec.0);
        assert(r.0[0] == 0);
        assert(r.0.drop_first() =~= rec.0);
        assert(sum_sizes(r.0) == 0 + sum_sizes(rec.0));
        assert forall|k: int| 0 <= k < sizes.len() implies #[trigger] r.0[k] <= sizes[k] by {
            if k >= 1 {
                assert(r.0[k] == rec.0[k - 1]);
                assert(sizes.drop_first()[k - 1] == sizes[k]);
            }
        }
    } else {
        assert(r.0[0] == sizes[0] - market);
        assert(r.0.drop_first() =~= sizes.drop_first());
        assert(sum_sizes(r.0) == (sizes[0] - market) + sum_sizes(sizes.drop_first()));
        assert forall|k: int| 0 <= k < sizes.len() implies #[trigger] r.0[k] <= sizes[k] by {
            if k >= 1 {
                assert(r.0[k] == sizes.drop_first()[k - 1]);
            }
        }
    }
}

/// Time priority within one price level: when the market order covers the
/// first resting order but not both, the first is driven exactly to zero, the
/// second is left with exactly the remainder `first + second - market`, and
/// the market order is fully filled.
pub proof fn lemma_fill_fifo_pair(first: u64, second: u64, market: u64)
    requires
        first <= market,
        market < first + second,
    ensures
        fill_against(seq![first, second], market).0 == seq![
            0u64,
            (first + second - market) as u64,
        ],
        fill_against(seq![first, second], market).1 == 0,
{
    let s = seq![first, second];
    if market == 0 {
        assert(s =~= seq![0u64, (first + second - market) as u64]);
    } else {
        assert(s.drop_first() =~= seq![second]);
        let m2 = (market - first) as u64;
        let rec = fill_against(seq![second], m2);
        assert(fill_against(s, market).0 == seq![0u64] + rec.0);
        assert(fill_against(s, market).1 == rec.1);
        if m2 == 0 {
            assert(rec == (seq![second], 0u64));
            assert(seq![0u64] + seq![second] =~= seq![0u64, (first + second - market) as u64]);
        } else {
            assert(rec.0 == seq![(second - m2) as u64] + seq![second].drop_first());
            assert(seq![second].drop_first() =~= Seq::<u64>::empty());
            assert(seq![0u64] + (seq![(second - m2) as u64] + Seq::<u64>::empty()) =~= seq![
                0u64,
                (first + second - market) as u64,
            ]);
            assert(rec.1 == 0);
        }
    }
}

impl Order {
    /// A fresh order on the given side with the given remaining size.
    pub fn new(bid_or_ask: BidOrAsk, size: u64) -> (r: Order)
        ensures
            r.bid_or_ask == bid_or_ask,
            r.size == size,
    {
        Order { size, bid_or_ask }
    }

    /// An order is filled exactly when its remaining size is zero.
    pub fn is_filled(&self) -> (r: bool)
        ensures
            r == (self.size == 0),
    {
        self.size == 0
    }
}

impl Limit {
    /// An empty price level at the given price.
    pub fn new(price: u64) -> (r: Limit)
        ensures
            r.price == price,
            r.orders@ =~= Seq::<Order>::empty(),
    {
        Limit { price, orders: Vec::new() }
    }

    /// Appends an order at the back of the queue, preserving FIFO order.
    pub fn add_order(&mut self, order: Order)
        ensures
            final(self).price == old(self).price,
            final(self).orders@ == old(self).orders@.push(order),
    {
        self.orders.push(order);
    }

    /// The sum of the remaining sizes of every resting order at this level;
    /// zero for an empty level.
    pub fn total_volume(&self) -> (r: u128)
        ensures
            r == sum_sizes(sizes_of(self.orders@)),
    {
        let ghost all: Seq<u64> = sizes_of(self.orders@);
        let mut total: u128 = 0;
        let mut i: usize = 0;
        while i < self.orders.len()
            invariant
                0 <= i <= self.orders@.len(),
                all == sizes_of(self.orders@),
                total == sum_sizes(all.take(i as int)),
            decreases self.orders@.len() - i,
        {
            proof {
                lemma_sum_sizes_bound(all.take(i as int));
                assert(all.take(i as int).len() * (u64::MAX as int) <= (usize::MAX as int) * (
                u64::MAX as int)) by (nonlinear_arith)
                    requires
                        0 <= all.take(i as int).len() <= usize::MAX as int,
                ;
                assert(all.take(i as int + 1) =~= all.take(i as int).push(all[i as int]));
                lemma_sum_sizes_push(all.take(i as int), all[i as int]);
            }
            total = total + (self.orders[i].size as u128);
            i = i + 1;
        }
        proof {
            assert(all.take(i as int) =~= all);
        }
        total
    }

    /// Fills the incoming market order against this level's queue in strict
    /// time priority, exactly as [`fill_against`] describes: sizes change,
    /// while the queue's length, each order's side, the level's price and the
    /// market order's side stay as they were.
    pub fn fill_order(&mut self, market_order: &mut Order)
        ensures
            final(self).price == old(self).price,
            final(self).orders@.len() == old(self).orders@.len(),
            forall|k: int|
                0 <= k < old(self).orders@.len() ==> final(self).orders@[k].bid_or_ask == old(
                self).orders@[k].bid_or_ask,
            sizes_of(final(self).orders@) == fill_against(
                sizes_of(old(self).orders@),
                old(market_order).size,
            ).0,
            final(market_order).size == fill_against(
                sizes_of(old(self).orders@),
                old(market_order).size,
            ).1,
            final(market_order).bid_or_ask == old(market_order).bid_or_ask,
    {
        let ghost orders0: Seq<Order> = self.orders@;
        let ghost s0: Seq<u64> = sizes_of(orders0);
        let ghost m0: u64 = market_order.size;
        let ghost price0: u64 = self.price;
        let ghost mside0: BidOrAsk = market_order.bid_or_ask;
        proof {
            assert(s0.skip(0) =~= s0);
            assert(s0.take(0) + fill_against(s0, m0).0 =~= fill_against(s0, m0).0);
        }
        let mut i: usize = 0;
        while i < self.orders.len() && market_order.size > 0
            invariant
                0 <= i <= self.orders@.len(),
                self.orders@.len() == s0.len(),
                self.price == price0,
                market_order.bid_or_ask == mside0,
                forall|k: int|
                    0 <= k < s0.len() ==> self.orders@[k].bid_or_ask == orders0[k].bid_or_ask,
                forall|k: int| i <= k < s0.len() ==> self.orders@[k].size == orders0[k].size,
                fill_against(s0, m0).0 == sizes_of(self.orders@).take(i as int) + fill_against(
                    sizes_of(self.orders@).skip(i as int),
                    market_order.size,
                ).0,
                fill_against(s0, m0).1 == fill_against(
                    sizes_of(self.orders@).skip(i as int),
                    market_order.size,
                ).1,
            decreases self.orders@.len() - i,
        {
            let ghost cur: Seq<u64> = sizes_of(self.orders@);
            let ghost m: u64 = market_order.size;
            let first: u64 = self.orders[i].size;
            proof {
                assert(cur.skip(i as int)[0] == cur[i as int]);
                assert(cur.skip(i as int).drop_first() =~= cur.skip(i as int + 1));
            }
            if market_order.size >= first {
                market_order.size = market_order.size - first;
                self.orders[i].size = 0;
                proof {
                    let curp = sizes_of(self.orders@);
                    assert(curp =~= cur.update(i as int, 0u64));
                    assert(curp.skip(i as int + 1) =~= cur.skip(i as int + 1));
                    assert(curp.take(i as int + 1) =~= cur.take(i as int) + seq![0u64]);
                    assert(fill_against(cur.skip(i as int), m).0 == seq![0u64] + fill_against(
                        curp.skip(i as int + 1),
                        market_order.size,
                    ).0);
                    assert(cur.take(i as int) + (seq![0u64] + fill_against(
                        curp.skip(i as int + 1),
                        market_order.size,
                    ).0) =~= curp.take(i as int + 1) + fill_against(
                        curp.skip(i as int + 1),
                        market_order.size,
                    ).0);
                }
            } else {
                let taken: u64 = market_order.size;
                self.orders[i].size = first - taken;
                market_order.size = 0;
                proof {
                    let curp = sizes_of(self.orders@);
                    assert(curp =~= cur.update(i as int, (first - taken) as u64));
                    assert(curp.skip(i as int + 1) =~= cur.skip(i as int + 1));
                    assert(curp.take(i as int + 1) =~= cur.take(i as int) + seq![(first
                        - taken) as u64]);
                    assert(fill_against(cur.skip(i as int), m).0 == seq![(first - taken) as u64]
                        + cur.skip(i as int + 1));
                    assert(fill_against(curp.skip(i as int + 1), 0u64).0 == curp.skip(i as int + 1));
                    assert(cur.take(i as int) + (seq![(first - taken) as u64] + curp.skip(
                        i as int + 1,
                    )) =~= curp.take(i as int + 1) + fill_against(
                        curp.skip(i as int + 1),
                        0u64,
                    ).0);
                }
            }
            i = i + 1;
        }
        proof {
            let cur = sizes_of(self.orders@);
            if i == self.orders@.len() {
                assert(cur.skip(i as int) =~= Seq::<u64>::empty());
                assert(cur.take(i as int) =~= cur);
                assert(cur.take(i as int) + fill_against(cur.skip(i as int), market_order.size).0
                    =~= cur);
            } else {
                assert(market_order.size == 0);
                assert(fill_against(cur.skip(i as int), 0u64).0 == cur.skip(i as int));
                assert(cur.take(i as int) + cur.skip(i as int) =~= cur);
            }
        }
    }
}

/// The view of one side of a book: each level's price and order queue, in
/// storage order.
pub open spec fn side_view(side: Seq<Limit>) -> Seq<(u64, Seq<Order>)> {
    side.map_values(|l: Limit| (l.price, l.orders@))
}

/// The remaining sizes on one side of a book, level by level in storage
/// order.
pub open spec fn sizes_view(side: Seq<Limit>) -> Seq<Seq<u64>> {
    side.map_values(|l: Limit| sizes_of(l.orders@))
}

/// Whether a side's levels are sorted strictly by price in that side's
/// priority order: ascending for asks (cheapest first), descending for bids
/// (most generous first). Strictness also says that no price occurs twice.
pub open spec fn side_sorted(v: Seq<(u64, Seq<Order>)>, ascending: bool) -> bool {
    forall|i: int, j: int|
        #![trigger v[i], v[j]]
        0 <= i < j < v.len() ==> (if ascending {
            v[i].0 < v[j].0
        } else {
            v[i].0 > v[j].0
        })
}

/// What placing one order at one price does to a side held in priority
/// order: the order joins the back of the queue of the level with that exact
/// price if one exists, and otherwise a fresh one-order level appears at the
/// position the side's order assigns to the price.
pub open spec fn add_to_side(
    v: Seq<(u64, Seq<Order>)>,
    price: u64,
    order: Order,
    ascending: bool,
) -> Seq<(u64, Seq<Order>)>
    decreases v.len(),
{
    if v.len() == 0 {
        seq![(price, seq![order])]
    } else if v[0].0 == price {
        seq![(price, v[0].1.push(order))] + v.drop_first()
    } else if (ascending && price < v[0].0) || (!ascending && price > v[0].0) {
        seq![(price, seq![order])] + v
    } else {
        seq![v[0]] + add_to_side(v.drop_first(), price, order, ascending)
    }
}

/// Whether some level on a side rests at exactly this price.
pub open spec fn side_has_price(v: Seq<(u64, Seq<Order>)>, p: u64) -> bool {
    exists|t: int| 0 <= t < v.len() && (#[trigger] v[t]).0 == p
}

/// Price priority of the levels, for any sequence of placements: a side that
/// is sorted strictly in its priority order — ascending for asks, descending
/// for bids — stays so after a placement, and then holds exactly the prices
/// it held before plus the placed one.
pub proof fn lemma_add_to_side_sorted(
    v: Seq<(u64, Seq<Order>)>,
    price: u64,
    order: Order,
    ascending: bool,
)
    requires
        side_sorted(v, ascending),
    ensures
        side_sorted(add_to_side(v, price, order, ascending), ascending),
        forall|p: u64|
            #![trigger side_has_price(add_to_side(v, price, order, ascending), p)]
            #![trigger side_has_price(v, p)]
            side_has_price(add_to_side(v, price, order, ascending), p) <==> (p == price
                || side_has_price(v, p)),
    decreases v.len(),
{
    let r = add_to_side(v, price, order, ascending);
    if v.len() == 0 {
        assert(r[0].0 == price);
        assert forall|p: u64| side_has_price(r, p) implies (p == price || side_has_price(v, p)) by {
            let t = choose|t: int| 0 <= t < r.len() && (#[trigger] r[t]).0 == p;
            assert(t == 0);
        }
    } else if v[0].0 == price {
        assert(forall|k: int| 0 <= k < r.len() ==> (#[trigger] r[k]).0 == v[k].0);
        assert forall|p: u64| side_has_price(r, p) implies (p == price || side_has_price(v, p)) by {
            let t = choose|t: int| 0 <= t < r.len() && (#[trigger] r[t]).0 == p;
            assert(v[t].0 == p);
        }
        assert forall|p: u64| p == price || side_has_price(v, p) implies side_has_price(r, p) by {
            if p == price {
                assert(r[0].0 == p);
            } else {
                let t = choose|t: int| 0 <= t < v.len() && (#[trigger] v[t]).0 == p;
                assert(r[t].0 == p);
            }
        }
    } else if (ascending && price < v[0].0) || (!ascending && price > v[0].0) {
        assert(r[0].0 == price);
        assert(forall|k: int| 1 <= k < r.len() ==> (#[trigger] r[k]).0 == v[k - 1].0);
        assert forall|a: int, b: int|
            #![trigger r[a], r[b]]
            0 <= a < b < r.len() implies (if ascending {
            r[a].0 < r[b].0
        } else {
            r[a].0 > r[b].0
        }) by {
            if a == 0 {
                assert(v[0] == r[1]);
            }
        }
        assert forall|p: u64| side_has_price(r, p) implies (p == price || side_has_price(v, p)) by {
            let t = choose|t: int| 0 <= t < r.len() && (#[trigger] r[t]).0 == p;
            if t >= 1 {
                assert(v[t - 1].0 == p);
            }
        }
        assert forall|p: u64| p == price || side_has_price(v, p) implies side_has_price(r, p) by {
            if p == price {
                assert(r[0].0 == p);
            } else {
                let t = choose|t: int| 0 <= t < v.len() && (#[trigger] v[t]).0 == p;
                assert(r[t + 1].0 == p);
            }
        }
    } else {
        let vd = v.drop_first();
        let rec = add_to_side(vd, price, order, ascending);
        lemma_add_to_side_sorted(vd, price, order, ascending);
        assert(r == seq![v[0]] + rec);
        assert(r[0] == v[0]);
        assert(forall|k: int| 1 <= k < r.len() ==> (#[trigger] r[k]) == rec[k - 1]);
        assert(forall|t: int| 0 <= t < vd.len() ==> (#[trigger] vd[t]) == v[t + 1]);
        assert forall|a: int, b: int|
            #![trigger r[a], r[b]]
            0 <= a < b < r.len() implies (if ascending {
            r[a].0 < r[b].0
        } else {
            r[a].0 > r[b].0
        }) by {
            if a == 0 {
                assert(rec[b - 1].0 == r[b].0);
                assert(side_has_price(rec, r[b].0));
                if r[b].0 != price {
                    assert(side_has_price(vd, r[b].0));
                    let t = choose|t: int| 0 <= t < vd.len() && (#[trigger] vd[t]).0 == r[b].0;
                    assert(v[t + 1].0 == r[b].0);
                }
            } else {
                assert(r[a] == rec[a - 1] && r[b] == rec[b - 1]);
            }
        }
        assert forall|p: u64| side_has_price(r, p) implies (p == price || side_has_price(v, p)) by {
            let t = choose|t: int| 0 <= t < r.len() && (#[trigger] r[t]).0 == p;
            if t == 0 {
                assert(v[0].0 == p);
            } else {
                assert(rec[t - 1].0 == p);
                assert(side_has_price(rec, p));
                if p != price {
                    assert(side_has_price(vd, p));
                    let s = choose|s: int| 0 <= s < vd.len() && (#[trigger] vd[s]).0 == p;
                    assert(v[s + 1].0 == p);
                }
            }
        }
        assert forall|p: u64| p == price || side_has_price(v, p) implies side_has_price(r, p) by {
            if p == price {
                assert(side_has_price(rec, p) <==> (p == price || side_has_price(vd, p)));
                assert(side_has_price(rec, p));
                let s = choose|s: int| 0 <= s < rec.len() && (#[trigger] rec[s]).0 == p;
                assert(r[s + 1].0 == p);
            } else {
                let t = choose|t: int| 0 <= t < v.len() && (#[trigger] v[t]).0 == p;
                if t == 0 {
                    assert(r[0].0 == p);
                } else {
                    assert(vd[t - 1].0 == p);
                    assert(side_has_price(vd, p));
                    assert(side_has_price(rec, p));
                    let s = choose|s: int| 0 <= s < rec.len() && (#[trigger] rec[s]).0 == p;
                    assert(r[s + 1].0 == p);
                }
            }
        }
    }
}

/// At the first position `i` that does not strictly precede `price` in the
/// side's order, [`add_to_side`] either extends the level found there (same
/// price) or puts a fresh level there.
proof fn lemma_add_to_side_at(
    v: Seq<(u64, Seq<Order>)>,
    price: u64,
    order: Order,
    ascending: bool,
    i: int,
)
    requires
        0 <= i <= v.len(),
        forall|j: int|
            0 <= j < i ==> ((ascending ==> (#[trigger] v[j]).0 < price) && (!ascending ==> v[j].0
                > price)),
        i < v.len() ==> ((ascending ==> v[i].0 >= price) && (!ascending ==> v[i].0 <= price)),
    ensures
        i < v.len() && v[i].0 == price ==> add_to_side(v, price, order, ascending) == v.update(
            i,
            (price, v[i].1.push(order)),
        ),
        !(i < v.len() && v[i].0 == price) ==> add_to_side(v, price, order, ascending) == v.insert(
            i,
            (price, seq![order]),
        ),
    decreases v.len(),
{
    if i == 0 {
        if v.len() == 0 {
            assert(add_to_side(v, price, order, ascending) =~= v.insert(0, (price, seq![order])));
        } else if v[0].0 == price {
            assert(seq![(price, v[0].1.push(order))] + v.drop_first() =~= v.update(
                0,
                (price, v[0].1.push(order)),
            ));
        } else {
            assert(seq![(price, seq![order])] + v =~= v.insert(0, (price, seq![order])));
        }
    } else {
        let vd = v.drop_first();
        assert(v[0].0 != price);
        assert forall|j: int|
            0 <= j < i - 1 implies ((ascending ==> (#[trigger] vd[j]).0 < price) && (!ascending
            ==> vd[j].0 > price)) by {
            assert(vd[j] == v[j + 1]);
        }
        if i - 1 < vd.len() {
            assert(vd[i - 1] == v[i]);
        }
        lemma_add_to_side_at(vd, price, order, ascending, i - 1);
        if i < v.len() && v[i].0 == price {
            assert(seq![v[0]] + vd.update(i - 1, (price, vd[i - 1].1.push(order))) =~= v.update(
                i,
                (price, v[i].1.push(order)),
            ));
        } else {
            assert(seq![v[0]] + vd.insert(i - 1, (price, seq![order])) =~= v.insert(
                i,
                (price, seq![order]),
            ));
        }
    }
}

/// Appends `order` to the level at exactly `price` on this side, creating
/// the level at its sorted position when no order rests at that price yet.
fn add_order_to_side(side: &mut Vec<Limit>, price: u64, order: Order, ascending: bool)
    requires
        side_sorted(side_view(old(side)@), ascending),
    ensures
        side_view(final(side)@) == add_to_side(side_view(old(side)@), price, order, ascending),
        side_sorted(side_view(final(side)@), ascending),
{
    let ghost v0: Seq<Limit> = side@;
    let ghost v: Seq<(u64, Seq<Order>)> = side_view(v0);
    let mut i: usize = 0;
    if ascending {
        while i < side.len() && side[i].price < price
            invariant
                0 <= i <= side@.len(),
                side@ == v0,
                forall|j: int| 0 <= j < i ==> (#[trigger] v0[j]).price < price,
            decreases side@.len() - i,
        {
            i = i + 1;
        }
    } else {
        while i < side.len() && side[i].price > price
            invariant
                0 <= i <= side@.len(),
                side@ == v0,
                forall|j: int| 0 <= j < i ==> (#[trigger] v0[j]).price > price,
            decreases side@.len() - i,
        {
            i = i + 1;
        }
    }
    proof {
        assert forall|j: int|
            0 <= j < i implies ((ascending ==> (#[trigger] v[j]).0 < price) && (!ascending ==> v[
            j].0 > price)) by {
            assert(v[j].0 == v0[j].price);
        }
        lemma_add_to_side_at(v, price, order, ascending, i as int);
    }
    if i < side.len() && side[i].price == price {
        side[i].orders.push(order);
        proof {
            assert(side_view(side@) =~= v.update(i as int, (price, v[i as int].1.push(order))));
        }
    } else {
        let mut l = Limit::new(price);
        l.add_order(order);
        side.insert(i, l);
        proof {
            assert(side_view(side@) =~= v.insert(i as int, (price, seq![order])));
        }
    }
    proof {
        lemma_add_to_side_sorted(v, price, order, ascending);
    }
}

/// What filling a market order against a whole side leaves behind: levels
/// are consumed front to back — best price first, since a side is held in
/// priority order — each one as [`fill_against`] describes, until the market
/// order is exhausted or the side runs out of levels. The result is each
/// level's sizes afterwards, paired with the market order's remaining size.
pub open spec fn fill_levels(levels: Seq<Seq<u64>>, market: u64) -> (Seq<Seq<u64>>, u64)
    decreases levels.len(),
{
    if levels.len() == 0 || market == 0 {
        (levels, market)
    } else {
        let first = fill_against(levels[0], market);
        let rec = fill_levels(levels.drop_first(), first.1);
        (seq![first.0] + rec.0, rec.1)
    }
}

/// The sum of all remaining sizes across a side's levels.
pub open spec fn sum_levels(levels: Seq<Seq<u64>>) -> int
    decreases levels.len(),
{
    if levels.len() == 0 {
        0
    } else {
        sum_sizes(levels[0]) + sum_levels(levels.drop_first())
    }
}

/// Conservation across a whole side: filling a market order against a side
/// keeps every level's shape, never increases any resting size, and
/// transfers size one for one between the side and the market order.
pub proof fn lemma_fill_levels_conserves(levels: Seq<Seq<u64>>, market: u64)
    ensures
        fill_levels(levels, market).0.len() == levels.len(),
        forall|k: int|
            0 <= k < levels.len() ==> (#[trigger] fill_levels(levels, market).0[k]).len()
                == levels[k].len(),
        forall|k: int, t: int|
            0 <= k < levels.len() && 0 <= t < levels[k].len() ==> #[trigger] fill_levels(
                levels,
                market,
            ).0[k][t] <= levels[k][t],
        fill_levels(levels, market).1 <= market,
        sum_levels(levels) - sum_levels(fill_levels(levels, market).0) == market - fill_levels(
            levels,
            market,
        ).1,
    decreases levels.len(),
{
    let r = fill_levels(levels, market);
    if levels.len() == 0 || market == 0 {
    } else {
        let first = fill_against(levels[0], market);
        lemma_fill_against_conserves(levels[0], market);
        lemma_fill_levels_conserves(levels.drop_first(), first.1);
        let rec = fill_levels(levels.drop_first(), first.1);
        assert(r.0[0] == first.0);
        assert(r.0.drop_first() =~= rec.0);
        assert(sum_levels(r.0) == sum_sizes(first.0) + sum_levels(rec.0));
        assert forall|k: int| 0 <= k < levels.len() implies (#[trigger] r.0[k]).len()
            == levels[k].len() by {
            if k >= 1 {
                assert(r.0[k] == rec.0[k - 1]);
                assert(levels.drop_first()[k - 1] == levels[k]);
            }
        }
        assert forall|k: int, t: int|
            0 <= k < levels.len() && 0 <= t < levels[k].len() implies #[trigger] r.0[k][t]
            <= levels[k][t] by {
            if k >= 1 {
                assert(r.0[k] == rec.0[k - 1]);
                assert(levels.drop_first()[k - 1] == levels[k]);
            }
        }
    }
}

/// How a book `after` relates to a book `before` once one limit order has
/// been placed: the order's own side has it added at exactly `price` as
/// [`add_to_side`] describes, and the other side is untouched.
pub open spec fn book_after_add(before: OrderBook, after: OrderBook, price: u64, order: Order) -> bool {
    if order.bid_or_ask is Bid {
        side_view(after.bids@) == add_to_side(side_view(before.bids@), price, order, false)
            && after.asks@ == before.asks@
    } else {
        side_view(after.asks@) == add_to_side(side_view(before.asks@), price, order, true)
            && after.bids@ == before.bids@
    }
}

/// One side of a book split by price, plus the opposite side, each held in
/// its priority order.
#[derive(Debug)]
pub struct OrderBook {
    pub asks: Vec<Limit>,
    pub bids: Vec<Limit>,
}

/// Fills the incoming market order against the levels of one side, front to
/// back, stopping as soon as the order is exhausted.
fn fill_side(side: &mut Vec<Limit>, market_order: &mut Order)
    ensures
        final(side)@.len() == old(side)@.len(),
        forall|k: int|
            0 <= k < old(side)@.len() ==> (#[trigger] final(side)@[k]).price == old(
            side)@[k].price,
        forall|k: int|
            0 <= k < old(side)@.len() ==> (#[trigger] final(side)@[k]).orders@.len() == old(
            side)@[k].orders@.len(),
        forall|k: int, t: int|
            0 <= k < old(side)@.len() && 0 <= t < old(side)@[k].orders@.len() ==> (#[trigger] final(
            side)@[k].orders@[t]).bid_or_ask == old(side)@[k].orders@[t].bid_or_ask,
        sizes_view(final(side)@) == fill_levels(sizes_view(old(side)@), old(market_order).size).0,
        final(market_order).size == fill_levels(sizes_view(old(side)@), old(market_order).size).1,
        final(market_order).bid_or_ask == old(market_order).bid_or_ask,
{
    let ghost v0: Seq<Limit> = side@;
    let ghost s0: Seq<Seq<u64>> = sizes_view(v0);
    let ghost m0: u64 = market_order.size;
    let ghost mside0: BidOrAsk = market_order.bid_or_ask;
    proof {
        assert(s0.skip(0) =~= s0);
        assert(s0.take(0) + fill_levels(s0, m0).0 =~= fill_levels(s0, m0).0);
    }
    let mut i: usize = 0;
    while i < side.len() && market_order.size > 0
        invariant
            0 <= i <= side@.len(),
            side@.len() == v0.len(),
            market_order.bid_or_ask == mside0,
            forall|k: int| i <= k < v0.len() ==> side@[k] == v0[k],
            forall|k: int| 0 <= k < v0.len() ==> (#[trigger] side@[k]).price == v0[k].price,
            forall|k: int|
                0 <= k < v0.len() ==> (#[trigger] side@[k]).orders@.len() == v0[k].orders@.len(),
            forall|k: int, t: int|
                0 <= k < v0.len() && 0 <= t < v0[k].orders@.len() ==> (#[trigger] side@[k].orders@[
                t]).bid_or_ask == v0[k].orders@[t].bid_or_ask,
            fill_levels(s0, m0).0 == sizes_view(side@).take(i as int) + fill_levels(
                sizes_view(side@).skip(i as int),
                market_order.size,
            ).0,
            fill_levels(s0, m0).1 == fill_levels(
                sizes_view(side@).skip(i as int),
                market_order.size,
            ).1,
        decreases side@.len() - i,
    {
        let ghost cur: Seq<Seq<u64>> = sizes_view(side@);
        let ghost m: u64 = market_order.size;
        proof {
            assert(cur.skip(i as int)[0] == cur[i as int]);
            assert(cur.skip(i as int).drop_first() =~= cur.skip(i as int + 1));
        }
        side[i].fill_order(market_order);
        proof {
            let curp = sizes_view(side@);
            let first = fill_against(cur[i as int], m);
            assert(curp =~= cur.update(i as int, first.0));
            assert(curp.skip(i as int + 1) =~= cur.skip(i as int + 1));
            assert(curp.take(i as int + 1) =~= cur.take(i as int) + seq![first.0]);
            assert(fill_levels(cur.skip(i as int), m).0 == seq![first.0] + fill_levels(
                curp.skip(i as int + 1),
                market_order.size,
            ).0);
            assert(cur.take(i as int) + (seq![first.0] + fill_levels(
                curp.skip(i as int + 1),
                market_order.size,
            ).0) =~= curp.take(i as int + 1) + fill_levels(
                curp.skip(i as int + 1),
                market_order.size,
            ).0);
        }
        i = i + 1;
    }
    proof {
        let cur = sizes_view(side@);
        if i == side@.len() {
            assert(cur.skip(i as int) =~= Seq::<Seq<u64>>::empty());
            assert(cur.take(i as int) =~= cur);
            assert(cur.take(i as int) + fill_levels(cur.skip(i as int), market_order.size).0
                =~= cur);
        } else {
            assert(market_order.size == 0);
            assert(fill_levels(cur.skip(i as int), 0u64).0 == cur.skip(i as int));
            assert(cur.take(i as int) + cur.skip(i as int) =~= cur);
        }
    }
}

impl OrderBook {
    /// Both sides are sorted strictly by price in their priority order.
    pub open spec fn wf(self) -> bool {
        side_sorted(side_view(self.asks@), true) && side_sorted(side_view(self.bids@), false)
    }

    /// An empty book: no resting liquidity on either side.
    pub fn new() -> (r: OrderBook)
        ensures
            r.asks@ =~= Seq::<Limit>::empty(),
            r.bids@ =~= Seq::<Limit>::empty(),
            r.wf(),
    {
        OrderBook { asks: Vec::new(), bids: Vec::new() }
    }

    /// Routes the order by its side and appends it to the level at exactly
    /// `price`, creating that level at its sorted position if no order rests
    /// there yet; the other side is untouched.
    pub fn add_limit_order(&mut self, price: u64, order: Order)
        requires
            old(self).wf(),
        ensures
            final(self).wf(),
            book_after_add(*old(self), *final(self), price, order),
    {
        match order.bid_or_ask {
            BidOrAsk::Bid => add_order_to_side(&mut self.bids, price, order, false),
            BidOrAsk::Ask => add_order_to_side(&mut self.asks, price, order, true),
        }
    }

    /// All ask levels, best (lowest) price first: the order in which a
    /// buyer's market order consumes them.
    pub fn ask_limits(&self) -> (r: &Vec<Limit>)
        ensures
            r@ == self.asks@,
            self.wf() ==> side_sorted(side_view(r@), true),
    {
        &self.asks
    }

    /// All bid levels, best (highest) price first: the order in which a
    /// seller's market order consumes them.
    pub fn bid_limits(&self) -> (r: &Vec<Limit>)
        ensures
            r@ == self.bids@,
            self.wf() ==> side_sorted(side_view(r@), false),
    {
        &self.bids
    }

    /// Fills a market order against the opposing side — asks for an incoming
    /// bid, bids for an incoming ask — walking levels best price first and
    /// consuming resting orders as [`fill_levels`] describes, until the
    /// market order is exhausted or liquidity runs out. A market order that
    /// cannot be fully satisfied is simply left with its unfilled remainder.
    pub fn fill_market_order(&mut self, market_order: &mut Order)
        requires
            old(self).wf(),
        ensures
            final(self).wf(),
            final(market_order).bid_or_ask == old(market_order).bid_or_ask,
            old(market_order).bid_or_ask is Bid ==> {
                &&& final(self).bids@ == old(self).bids@
                &&& sizes_view(final(self).asks@) == fill_levels(
                    sizes_view(old(self).asks@),
                    old(market_order).size,
                ).0
                &&& final(market_order).size == fill_levels(
                    sizes_view(old(self).asks@),
                    old(market_order).size,
                ).1
                &&& side_view(final(self).asks@).len() == side_view(old(self).asks@).len()
                &&& forall|k: int|
                    0 <= k < old(self).asks@.len() ==> (#[trigger] final(self).asks@[k]).price
                        == old(self).asks@[k].price
                &&& forall|k: int|
                    0 <= k < old(self).asks@.len() ==> (#[trigger] final(
                    self).asks@[k]).orders@.len() == old(self).asks@[k].orders@.len()
                &&& forall|k: int, t: int|
                    0 <= k < old(self).asks@.len() && 0 <= t < old(self).asks@[k].orders@.len()
                        ==> (#[trigger] final(self).asks@[k].orders@[t]).bid_or_ask == old(
                        self,
                    ).asks@[k].orders@[t].bid_or_ask
            },
            old(market_order).bid_or_ask is Ask ==> {
                &&& final(self).asks@ == old(self).asks@
                &&& sizes_view(final(self).bids@) == fill_levels(
                    sizes_view(old(self).bids@),
                    old(market_order).size,
                ).0
                &&& final(market_order).size == fill_levels(
                    sizes_view(old(self).bids@),
                    old(market_order).size,
                ).1
                &&& side_view(final(self).bids@).len() == side_view(old(self).bids@).len()
                &&& forall|k: int|
                    0 <= k < old(self).bids@.len() ==> (#[trigger] final(self).bids@[k]).price
                        == old(self).bids@[k].price
                &&& forall|k: int|
                    0 <= k < old(self).bids@.len() ==> (#[trigger] final(
                    self).bids@[k]).orders@.len() == old(self).bids@[k].orders@.len()
                &&& forall|k: int, t: int|
                    0 <= k < old(self).bids@.len() && 0 <= t < old(self).bids@[k].orders@.len()
                        ==> (#[trigger] final(self).bids@[k].orders@[t]).bid_or_ask == old(
                        self,
                    ).bids@[k].orders@[t].bid_or_ask
            },
    {
        match market_order.bid_or_ask {
            BidOrAsk::Bid => {
                fill_side(&mut self.asks, market_order);
                proof {
                    let u = side_view(self.asks@);
                    let v = side_view(old(self).asks@);
                    assert forall|a: int, b: int|
                        #![trigger u[a], u[b]]
                        0 <= a < b < u.len() implies u[a].0 < u[b].0 by {
                        assert(u[a].0 == self.asks@[a].price);
                        assert(u[b].0 == self.asks@[b].price);
                        assert(v[a].0 == old(self).asks@[a].price);
                        assert(v[b].0 == old(self).asks@[b].price);
                    }
                }
            },
            BidOrAsk::Ask => {
                fill_side(&mut self.bids, market_order);
                proof {
                    let u = side_view(self.bids@);
                    let v = side_view(old(self).bids@);
                    assert forall|a: int, b: int|
                        #![trigger u[a], u[b]]
                        0 <= a < b < u.len() implies u[a].0 > u[b].0 by {
                        assert(u[a].0 == self.bids@[a].price);
                        assert(u[b].0 == self.bids@[b].price);
                        assert(v[a].0 == old(self).bids@[a].price);
                        assert(v[b].0 == old(self).bids@[b].price);
                    }
                }
            },
        }
    }
}


} // verus!
