use vstd::prelude::*;
use crate::decimal::Dec;
use crate::order::{Order, OrderSide, OrderKind, OrderError, opposite};
use crate::order_queue::{
    OrderQueue, flat, eligible, min_u, with_volumn, front_removed, front_reduced,
    pushed_levels, q_unchanged, removed_at, has_order_at, avail_units, sum_units, seq_has_id,
    levels_contain_id, lemma_flat_first, lemma_flat_front_removed, lemma_flat_front_reduced,
    lemma_flat_contains_id, lemma_sum_front, level_order_wf,
};
use crate::queue::ResultQueue;

verus! {

// ---------------------------------------------------------------------------
// The matching pass, as a mathematical function
// ---------------------------------------------------------------------------

/// The resting makers (best first) left after one full matching pass of a
/// taker with remaining quantity `vol`, limited to `limit`: eligible makers
/// are consumed front first, the last one possibly only reduced.
pub open spec fn sim_makers(makers: Seq<Order>, limit: u128, vol: u128, maker_side: OrderSide) -> Seq<
    Order,
>
    decreases makers.len(),
{
    if vol == 0 || makers.len() == 0 || !eligible(makers[0].price.units, limit, maker_side) {
        makers
    } else if makers[0].volumn.units <= vol {
        sim_makers(makers.drop_first(), limit, (vol - makers[0].volumn.units) as u128, maker_side)
    } else {
        makers.update(0, with_volumn(makers[0], (makers[0].volumn.units - vol) as u128))
    }
}

/// The taker quantity left unfilled by the same pass.
pub open spec fn sim_leftover(
    makers: Seq<Order>,
    limit: u128,
    vol: u128,
    maker_side: OrderSide,
) -> u128
    decreases makers.len(),
{
    if vol == 0 || makers.len() == 0 || !eligible(makers[0].price.units, limit, maker_side) {
        vol
    } else if makers[0].volumn.units <= vol {
        sim_leftover(makers.drop_first(), limit, (vol - makers[0].volumn.units) as u128, maker_side)
    } else {
        0
    }
}

/// Fill-or-kill soundness of the look-ahead: when the available eligible
/// quantity covers the request, a full matching pass leaves nothing unfilled.
pub proof fn lemma_avail_sufficient(s: Seq<Order>, limit: u128, vol: u128, side: OrderSide)
    requires
        avail_units(s, limit, side) >= vol,
    ensures
        sim_leftover(s, limit, vol, side) == 0,
    decreases s.len(),
{
    if vol == 0 {
    } else if s.len() == 0 || !eligible(s[0].price.units, limit, side) {
        assert(avail_units(s, limit, side) == 0);
    } else if s[0].volumn.units <= vol {
        lemma_avail_sufficient(s.drop_first(), limit, (vol - s[0].volumn.units) as u128, side);
    }
}

/// Matching never introduces an order ID: every ID resting after a pass was
/// resting before it.
pub proof fn lemma_sim_ids(s: Seq<Order>, limit: u128, vol: u128, side: OrderSide, id: u64)
    requires
        seq_has_id(sim_makers(s, limit, vol, side), id),
    ensures
        seq_has_id(s, id),
    decreases s.len(),
{
    if vol == 0 || s.len() == 0 || !eligible(s[0].price.units, limit, side) {
    } else if s[0].volumn.units <= vol {
        lemma_sim_ids(s.drop_first(), limit, (vol - s[0].volumn.units) as u128, side, id);
        let k = choose|k: int|
            0 <= k < s.drop_first().len() && (#[trigger] s.drop_first()[k]).id == id;
        assert(s[k + 1].id == id);
    } else {
        let m = sim_makers(s, limit, vol, side);
        let k = choose|k: int| 0 <= k < m.len() && (#[trigger] m[k]).id == id;
        if k == 0 {
            assert(s[0].id == id);
        } else {
            assert(s[k].id == id);
        }
    }
}

/// Volume conservation over a matching pass: the quantity the makers lose is
/// exactly the quantity the taker fills, and the taker never fills more than
/// it asked for.
pub proof fn lemma_sim_volume_conservation(s: Seq<Order>, limit: u128, vol: u128, side: OrderSide)
    ensures
        sum_units(sim_makers(s, limit, vol, side)) + (vol - sim_leftover(s, limit, vol, side))
            == sum_units(s),
        sim_leftover(s, limit, vol, side) <= vol,
    decreases s.len(),
{
    if vol == 0 || s.len() == 0 || !eligible(s[0].price.units, limit, side) {
    } else if s[0].volumn.units <= vol {
        lemma_sim_volume_conservation(s.drop_first(), limit, (vol - s[0].volumn.units) as u128,
            side);
        lemma_sum_front(s);
    } else {
        let r = s.update(0, with_volumn(s[0], (s[0].volumn.units - vol) as u128));
        lemma_sum_front(s);
        lemma_sum_front(r);
        assert(r.drop_first() =~= s.drop_first());
    }
}

// ---------------------------------------------------------------------------
// The book
// ---------------------------------------------------------------------------

/// One symbol's order book: the two sides and an optional notification sink.
pub struct OrderBook<R: ResultQueue> {
    pub symbol: String,
    pub buy_queue: OrderQueue,
    pub sell_queue: OrderQueue,
    pub result_queue: Option<R>,
}

impl<R: ResultQueue> OrderBook<R> {
    /// Both sides well formed, with the buy side held highest price first
    /// and the sell side lowest price first.
    pub open spec fn wf(self) -> bool {
        &&& self.buy_queue.wf()
        &&& self.buy_queue.side == OrderSide::Buy
        &&& self.buy_queue.desc == false
        &&& self.sell_queue.wf()
        &&& self.sell_queue.side == OrderSide::Sell
        &&& self.sell_queue.desc == true
    }

    /// The side a taker of side `side` would rest on.
    pub open spec fn own_q(self, side: OrderSide) -> OrderQueue {
        match side {
            OrderSide::Buy => self.buy_queue,
            OrderSide::Sell => self.sell_queue,
        }
    }

    /// The side a taker of side `side` matches against.
    pub open spec fn opp_q(self, side: OrderSide) -> OrderQueue {
        match side {
            OrderSide::Buy => self.sell_queue,
            OrderSide::Sell => self.buy_queue,
        }
    }

    /// Neither side changed observably.
    pub open spec fn unchanged(self, post: Self) -> bool {
        &&& post.symbol@ == self.symbol@
        &&& post.result_queue == self.result_queue
        &&& q_unchanged(self.buy_queue, post.buy_queue)
        &&& q_unchanged(self.sell_queue, post.sell_queue)
    }

    /// The symbol and sink are untouched by trading.
    pub open spec fn frame(self, post: Self) -> bool {
        &&& post.symbol@ == self.symbol@
        &&& post.result_queue == self.result_queue
    }

    /// What a limit pass of `taker` (with limit price `limit_units`) does:
    /// the opposing side is consumed exactly as `sim_makers` says, and the
    /// unfilled remainder, if any, rests at the back of its price level on
    /// the taker's own side — unless its ID already rests there, which fails
    /// as a duplicate after the trades have been committed.
    pub open spec fn limit_outcome(
        self,
        post: Self,
        taker: Order,
        limit_units: u128,
        r: Result<bool, OrderError>,
    ) -> bool {
        let ms = opposite(taker.side);
        let makers_pre = flat(self.opp_q(taker.side).list@);
        let leftover = sim_leftover(makers_pre, limit_units, taker.volumn.units, ms);
        &&& flat(post.opp_q(taker.side).list@) == sim_makers(
            makers_pre,
            limit_units,
            taker.volumn.units,
            ms,
        )
        &&& match r {
            Ok(b) => b && if leftover == 0 {
                q_unchanged(self.own_q(taker.side), post.own_q(taker.side))
            } else {
                &&& !self.own_q(taker.side).has_id(taker.id)
                &&& pushed_levels(
                    self.own_q(taker.side).list@,
                    post.own_q(taker.side).list@,
                    with_volumn(taker, leftover),
                )
                &&& post.own_q(taker.side).order_ids@ == self.own_q(
                    taker.side,
                ).order_ids@.push(taker.id)
            },
            Err(e) => e == OrderError::DuplicateOrder && leftover > 0 && self.own_q(
                taker.side,
            ).has_id(taker.id) && q_unchanged(self.own_q(taker.side), post.own_q(taker.side)),
        }
    }

    /// What a market order does: rejected outright on an empty opposing
    /// side; otherwise its price is overwritten with the best opposing price
    /// and it runs as a limit order at that price.
    pub open spec fn market_outcome(self, post: Self, order: Order, r: Result<
        bool,
        OrderError,
    >) -> bool {
        let opp = self.opp_q(order.side);
        if opp.list@.len() == 0 {
            r == Err::<bool, OrderError>(OrderError::NoOpposingLiquidity) && self.unchanged(post)
        } else {
            self.limit_outcome(
                post,
                Order { price: opp.list@[0].price, ..order },
                opp.list@[0].price.units,
                r,
            )
        }
    }

    /// What an immediate-or-cancel order does: one full limit pass, the
    /// remainder discarded instead of resting, so the taker's ID never rests
    /// anywhere afterwards.
    pub open spec fn ioc_outcome(self, post: Self, taker: Order, r: Result<
        bool,
        OrderError,
    >) -> bool {
        let ms = opposite(taker.side);
        &&& r == Ok::<bool, OrderError>(true)
        &&& q_unchanged(self.own_q(taker.side), post.own_q(taker.side))
        &&& flat(post.opp_q(taker.side).list@) == sim_makers(
            flat(self.opp_q(taker.side).list@),
            taker.price.units,
            taker.volumn.units,
            ms,
        )
        &&& (!self.buy_queue.has_id(taker.id) && !self.sell_queue.has_id(taker.id)
            ==> !post.buy_queue.has_id(taker.id) && !post.sell_queue.has_id(taker.id))
    }

    /// What a fill-or-kill order does: with less eligible opposing quantity
    /// than asked for, the book is untouched; otherwise it runs as a limit
    /// order and — the look-ahead being sound — fills completely, resting
    /// nothing.
    pub open spec fn fok_outcome(self, post: Self, taker: Order, r: Result<
        bool,
        OrderError,
    >) -> bool {
        let ms = opposite(taker.side);
        let avail = avail_units(flat(self.opp_q(taker.side).list@), taker.price.units, ms);
        if avail < taker.volumn.units {
            r == Err::<bool, OrderError>(OrderError::InsufficientLiquidity) && self.unchanged(post)
        } else {
            &&& self.limit_outcome(post, taker, taker.price.units, r)
            &&& q_unchanged(self.own_q(taker.side), post.own_q(taker.side))
            &&& (!self.buy_queue.has_id(taker.id) && !self.sell_queue.has_id(taker.id)
                ==> !post.buy_queue.has_id(taker.id) && !post.sell_queue.has_id(taker.id))
        }
    }

    /// How `add_order` dispatches: a duplicate ID on the order's own side is
    /// rejected with no side effect at all; otherwise the order's kind picks
    /// the pass that runs.
    pub open spec fn add_outcome(self, post: Self, order: Order, r: Result<
        bool,
        OrderError,
    >) -> bool {
        if self.own_q(order.side).has_id(order.id) {
            r == Err::<bool, OrderError>(OrderError::DuplicateOrder) && self.unchanged(post)
        } else {
            match order.kind {
                OrderKind::Limit => self.limit_outcome(post, order, order.price.units, r),
                OrderKind::Market => self.market_outcome(post, order, r),
                OrderKind::IOC => self.ioc_outcome(post, order, r),
                OrderKind::FOK => self.fok_outcome(post, order, r),
            }
        }
    }

    /// An empty book for one symbol, with an optional notification sink.
    pub fn new(symbol: String, result_queue: Option<R>) -> (r: OrderBook<R>)
        ensures
            r.wf(),
            r.symbol == symbol,
            r.result_queue == result_queue,
            r.buy_queue.list@.len() == 0,
            r.sell_queue.list@.len() == 0,
            r.buy_queue.order_ids@.len() == 0,
            r.sell_queue.order_ids@.len() == 0,
    {
        OrderBook {
            symbol,
            buy_queue: OrderQueue::new(OrderSide::Buy, false),
            sell_queue: OrderQueue::new(OrderSide::Sell, true),
            result_queue,
        }
    }

    /// Whether an order with this order's ID already rests on the side the
    /// order belongs to.
    pub fn exists_order(&self, order: &Order) -> (r: bool)
        ensures
            r == self.own_q(order.side).has_id(order.id),
    {
        match order.side {
            OrderSide::Buy => self.buy_queue.exists_order_id(order.id),
            OrderSide::Sell => self.sell_queue.exists_order_id(order.id),
        }
    }

    /// One matching step of `taker_order` against the opposing side's best
    /// resting order. Returns true when no trade is possible — the opposing
    /// side is empty or its best price is outside the taker's limit — and
    /// the caller should rest the order; returns false after committing one
    /// trade of `min(maker remaining, taker remaining)` at the maker's price
    /// and notifying the sink.
    fn trade(&mut self, taker_order: &mut Order) -> (rest: bool)
        requires
            old(self).wf(),
            old(taker_order).vals_wf(),
        ensures
            final(self).wf(),
            old(self).frame(*final(self)),
            q_unchanged(
                old(self).own_q(old(taker_order).side),
                final(self).own_q(old(taker_order).side),
            ),
            final(taker_order).side == old(taker_order).side,
            rest ==> old(self).unchanged(*final(self)) && *final(taker_order) == *old(taker_order)
                && ({
                let opp = old(self).opp_q(old(taker_order).side);
                opp.list@.len() == 0 || !eligible(
                    opp.list@[0].price.units,
                    old(taker_order).price.units,
                    opposite(old(taker_order).side),
                )
            }),
            !rest ==> ({
                let side = old(taker_order).side;
                let opp = old(self).opp_q(side);
                let maker = opp.list@[0].list@[0];
                let traded = min_u(maker.volumn.units, old(taker_order).volumn.units);
                &&& opp.list@.len() > 0
                &&& eligible(opp.list@[0].price.units, old(taker_order).price.units, opposite(side))
                &&& *final(taker_order) == with_volumn(
                    *old(taker_order),
                    (old(taker_order).volumn.units - traded) as u128,
                )
                &&& if traded == maker.volumn.units {
                    front_removed(opp.list@, final(self).opp_q(side).list@) && (forall|id: u64|
                        final(self).opp_q(side).has_id(id) <==> (opp.has_id(id) && id != maker.id))
                } else {
                    front_reduced(opp.list@, final(self).opp_q(side).list@, traded) && final(
                    self).opp_q(side).order_ids@ == opp.order_ids@
                }
            }),
    {
        let is_buy: bool = match taker_order.side {
            OrderSide::Buy => true,
            OrderSide::Sell => false,
        };
        if is_buy {
            let maker_price = self.sell_queue.first_price();
            match maker_price {
                None => {
                    return true;
                },
                Some(p) => {
                    if p.units > taker_order.price.units {
                        return true;
                    }
                },
            }
            let step = self.sell_queue.first_order(taker_order.volumn);
            match step {
                Some(s) => {
                    let (maker_id, traded, price) = s;
                    proof {
                        assert(traded.units <= taker_order.volumn.units);
                    }
                    taker_order.volumn = Dec { units: taker_order.volumn.units - traded.units };
                    if let Some(rq) = &self.result_queue {
                        rq.trade_success(maker_id, taker_order.id, traded, price);
                    }
                    false
                },
                None => {
                    proof {
                        assert(false);
                    }
                    true
                },
            }
        } else {
            let maker_price = self.buy_queue.first_price();
            match maker_price {
                None => {
                    return true;
                },
                Some(p) => {
                    if p.units < taker_order.price.units {
                        return true;
                    }
                },
            }
            let step = self.buy_queue.first_order(taker_order.volumn);
            match step {
                Some(s) => {
                    let (maker_id, traded, price) = s;
                    proof {
                        assert(traded.units <= taker_order.volumn.units);
                    }
                    taker_order.volumn = Dec { units: taker_order.volumn.units - traded.units };
                    if let Some(rq) = &self.result_queue {
                        rq.trade_success(maker_id, taker_order.id, traded, price);
                    }
                    false
                },
                None => {
                    proof {
                        assert(false);
                    }
                    true
                },
            }
        }
    }

    /// A limit order: matching steps repeat while a trade is eligible, then
    /// any remainder rests on the taker's own side at its limit price.
    pub fn limit(&mut self, taker_order: Order) -> (r: Result<bool, OrderError>)
        requires
            old(self).wf(),
            taker_order.vals_wf(),
        ensures
            final(self).wf(),
            old(self).frame(*final(self)),
            old(self).limit_outcome(*final(self), taker_order, taker_order.price.units, r),
    {
        let ghost side = taker_order.side;
        let ghost ms = opposite(side);
        let ghost limit_units = taker_order.price.units;
        let ghost f0 = flat(old(self).opp_q(side).list@);
        let ghost v0 = taker_order.volumn.units;
        let mut o = taker_order;
        loop
            invariant
                self.wf(),
                old(self).wf(),
                taker_order.vals_wf(),
                o == with_volumn(taker_order, o.volumn.units),
                o.volumn.units > 0,
                o.volumn.wf(),
                old(self).frame(*self),
                q_unchanged(old(self).own_q(side), self.own_q(side)),
                side == taker_order.side,
                ms == opposite(side),
                limit_units == taker_order.price.units,
                f0 == flat(old(self).opp_q(side).list@),
                v0 == taker_order.volumn.units,
                sim_makers(f0, limit_units, v0, ms) == sim_makers(
                    flat(self.opp_q(side).list@),
                    limit_units,
                    o.volumn.units,
                    ms,
                ),
                sim_leftover(f0, limit_units, v0, ms) == sim_leftover(
                    flat(self.opp_q(side).list@),
                    limit_units,
                    o.volumn.units,
                    ms,
                ),
            decreases flat(self.opp_q(side).list@).len(),
        {
            let ghost prev = *self;
            let ghost prev_o = o;
            let rest = self.trade(&mut o);
            if rest {
                proof {
                    lemma_sim_base(prev.opp_q(side), limit_units, prev_o.volumn.units, ms);
                }
                let ghost mid = *self;
                let res = match o.side {
                    OrderSide::Buy => self.buy_queue.push(o),
                    OrderSide::Sell => self.sell_queue.push(o),
                };
                proof {
                    assert(flat(self.opp_q(side).list@) == flat(mid.opp_q(side).list@));
                    assert(sim_leftover(f0, limit_units, v0, ms) == prev_o.volumn.units);
                }
                return res;
            }
            proof {
                lemma_trade_step(prev, *self, prev_o, o, side, limit_units, ms);
            }
            if o.volumn.units == 0 {
                proof {
                    let fcur = flat(self.opp_q(side).list@);
                    assert(sim_makers(fcur, limit_units, o.volumn.units, ms) == fcur);
                    assert(sim_leftover(fcur, limit_units, o.volumn.units, ms) == 0);
                }
                return Ok(true);
            }
        }
    }

    /// A market order: rejected with a passive cancellation when the
    /// opposing side is empty; otherwise its price becomes the best opposing
    /// price and it runs as a limit order at that price.
    pub fn market(&mut self, order: Order) -> (r: Result<bool, OrderError>)
        requires
            old(self).wf(),
            order.vals_wf(),
        ensures
            final(self).wf(),
            old(self).frame(*final(self)),
            old(self).market_outcome(*final(self), order, r),
    {
        let first = match order.side {
            OrderSide::Buy => self.sell_queue.first_price(),
            OrderSide::Sell => self.buy_queue.first_price(),
        };
        match first {
            Some(p) => {
                proof {
                    let levels = old(self).opp_q(order.side).list@;
                    assert(levels[0].wf(ms_side_of(*old(self), order.side)));
                    assert(level_order_wf(levels[0].list@[0], levels[0].price, ms_side_of(
                        *old(self), order.side)));
                }
                let mut o2 = order;
                o2.price = p;
                self.limit(o2)
            },
            None => {
                if let Some(rq) = &self.result_queue {
                    rq.cancel_order(order.id, order.volumn);
                }
                Err(OrderError::NoOpposingLiquidity)
            },
        }
    }

    /// An immediate-or-cancel order: one full limit pass; a remainder is
    /// discarded with a passive cancellation instead of resting, so the
    /// taker's ID never rests anywhere.
    pub fn ioc(&mut self, taker_order: Order) -> (r: Result<bool, OrderError>)
        requires
            old(self).wf(),
            taker_order.vals_wf(),
        ensures
            final(self).wf(),
            old(self).frame(*final(self)),
            old(self).ioc_outcome(*final(self), taker_order, r),
    {
        let ghost side = taker_order.side;
        let ghost ms = opposite(side);
        let ghost limit_units = taker_order.price.units;
        let ghost f0 = flat(old(self).opp_q(side).list@);
        let ghost v0 = taker_order.volumn.units;
        let mut o = taker_order;
        loop
            invariant
                self.wf(),
                old(self).wf(),
                taker_order.vals_wf(),
                o == with_volumn(taker_order, o.volumn.units),
                o.volumn.units > 0,
                o.volumn.wf(),
                old(self).frame(*self),
                q_unchanged(old(self).own_q(side), self.own_q(side)),
                side == taker_order.side,
                ms == opposite(side),
                limit_units == taker_order.price.units,
                f0 == flat(old(self).opp_q(side).list@),
                v0 == taker_order.volumn.units,
                sim_makers(f0, limit_units, v0, ms) == sim_makers(
                    flat(self.opp_q(side).list@),
                    limit_units,
                    o.volumn.units,
                    ms,
                ),
                sim_leftover(f0, limit_units, v0, ms) == sim_leftover(
                    flat(self.opp_q(side).list@),
                    limit_units,
                    o.volumn.units,
                    ms,
                ),
                forall|id: u64|
                    self.opp_q(side).has_id(id) ==> old(self).opp_q(side).has_id(id),
            decreases flat(self.opp_q(side).list@).len(),
        {
            let ghost prev = *self;
            let ghost prev_o = o;
            let rest = self.trade(&mut o);
            if rest {
                proof {
                    lemma_sim_base(prev.opp_q(side), limit_units, prev_o.volumn.units, ms);
                }
                if let Some(rq) = &self.result_queue {
                    rq.cancel_order(o.id, o.volumn);
                }
                proof {
                    assert forall|id: u64|
                        self.opp_q(side).has_id(id) implies old(self).opp_q(side).has_id(id) by {
                        assert(self.opp_q(side).order_ids@ == prev.opp_q(side).order_ids@);
                        assert(prev.opp_q(side).has_id(id) ==> old(self).opp_q(side).has_id(id));
                    }
                    lemma_ioc_not_resting(*old(self), *self, side, taker_order.id);
                }
                return Ok(true);
            }
            proof {
                lemma_trade_step(prev, *self, prev_o, o, side, limit_units, ms);
                let maker = prev.opp_q(side).list@[0].list@[0];
                assert forall|id: u64|
                    self.opp_q(side).has_id(id) implies old(self).opp_q(side).has_id(id) by {
                    if min_u(maker.volumn.units, prev_o.volumn.units) == maker.volumn.units {
                        assert(self.opp_q(side).has_id(id) <==> (prev.opp_q(side).has_id(id) && id
                            != maker.id));
                    } else {
                        assert(self.opp_q(side).order_ids@ == prev.opp_q(side).order_ids@);
                    }
                    assert(prev.opp_q(side).has_id(id) ==> old(self).opp_q(side).has_id(id));
                }
            }
            if o.volumn.units == 0 {
                proof {
                    let fcur = flat(self.opp_q(side).list@);
                    assert(sim_makers(fcur, limit_units, o.volumn.units, ms) == fcur);
                    assert(sim_leftover(fcur, limit_units, o.volumn.units, ms) == 0);
                    lemma_ioc_not_resting(*old(self), *self, side, taker_order.id);
                }
                return Ok(true);
            }
        }
    }
}

/// A pass that rests nothing and only consumes opposing orders cannot leave
/// the taker's ID anywhere it was not already resting.
proof fn lemma_ioc_not_resting<R: ResultQueue>(
    pre: OrderBook<R>,
    post: OrderBook<R>,
    side: OrderSide,
    id: u64,
)
    requires
        q_unchanged(pre.own_q(side), post.own_q(side)),
        post.opp_q(side).has_id(id) ==> pre.opp_q(side).has_id(id),
    ensures
        !pre.buy_queue.has_id(id) && !pre.sell_queue.has_id(id) ==> !post.buy_queue.has_id(id)
            && !post.sell_queue.has_id(id),
{
    match side {
        OrderSide::Buy => {
            assert(post.buy_queue.order_ids@ == pre.buy_queue.order_ids@);
        },
        OrderSide::Sell => {
            assert(post.sell_queue.order_ids@ == pre.sell_queue.order_ids@);
        },
    }
}

/// What one committed matching step does to the simulated pass: consuming or
/// reducing the front maker commutes with one unfolding of `sim_makers` /
/// `sim_leftover`.
proof fn lemma_trade_step<R: ResultQueue>(
    prev: OrderBook<R>,
    cur: OrderBook<R>,
    prev_o: Order,
    o: Order,
    side: OrderSide,
    limit_units: u128,
    ms: OrderSide,
)
    requires
        prev.wf(),
        ms == opposite(side),
        limit_units == prev_o.price.units,
        prev_o.volumn.units > 0,
        prev.opp_q(side).list@.len() > 0,
        eligible(prev.opp_q(side).list@[0].price.units, prev_o.price.units, ms),
        o == with_volumn(
            prev_o,
            (prev_o.volumn.units - min_u(
                prev.opp_q(side).list@[0].list@[0].volumn.units,
                prev_o.volumn.units,
            )) as u128,
        ),
        ({
            let maker = prev.opp_q(side).list@[0].list@[0];
            let traded = min_u(maker.volumn.units, prev_o.volumn.units);
            if traded == maker.volumn.units {
                front_removed(prev.opp_q(side).list@, cur.opp_q(side).list@)
            } else {
                front_reduced(prev.opp_q(side).list@, cur.opp_q(side).list@, traded)
            }
        }),
    ensures
        sim_makers(flat(prev.opp_q(side).list@), limit_units, prev_o.volumn.units, ms)
            == sim_makers(flat(cur.opp_q(side).list@), limit_units, o.volumn.units, ms),
        sim_leftover(flat(prev.opp_q(side).list@), limit_units, prev_o.volumn.units, ms)
            == sim_leftover(flat(cur.opp_q(side).list@), limit_units, o.volumn.units, ms),
        ({
            let maker = prev.opp_q(side).list@[0].list@[0];
            min_u(maker.volumn.units, prev_o.volumn.units) == maker.volumn.units ==> flat(
                cur.opp_q(side).list@,
            ).len() < flat(prev.opp_q(side).list@).len()
        }),
{
    let fprev = flat(prev.opp_q(side).list@);
    let fcur = flat(cur.opp_q(side).list@);
    let levels = prev.opp_q(side).list@;
    let maker = levels[0].list@[0];
    let traded = min_u(maker.volumn.units, prev_o.volumn.units);
    assert(prev.opp_q(side).wf());
    assert(levels[0].wf(prev.opp_q(side).side));
    lemma_flat_first(levels);
    assert(fprev[0] == maker);
    assert(maker.price == levels[0].price);
    if traded == maker.volumn.units {
        lemma_flat_front_removed(levels, cur.opp_q(side).list@);
        assert(fcur == fprev.drop_first());
        assert(o.volumn.units == prev_o.volumn.units - traded);
    } else {
        lemma_flat_front_reduced(levels, cur.opp_q(side).list@, traded);
        assert(traded == prev_o.volumn.units);
        assert(o.volumn.units == 0);
        assert(fcur == fprev.update(0, with_volumn(maker, (maker.volumn.units - traded) as u128)));
        assert(sim_makers(fprev, limit_units, prev_o.volumn.units, ms) == fcur);
        assert(sim_makers(fcur, limit_units, 0, ms) == fcur);
        assert(sim_leftover(fprev, limit_units, prev_o.volumn.units, ms) == 0);
    }
}

impl<R: ResultQueue> OrderBook<R> {
    /// A fill-or-kill order: a read-only look-ahead first; with insufficient
    /// eligible opposing quantity the whole order is rejected with a passive
    /// cancellation and the book untouched, otherwise it runs as a limit
    /// order, which the look-ahead guarantees fills completely.
    pub fn fok(&mut self, taker_order: Order) -> (r: Result<bool, OrderError>)
        requires
            old(self).wf(),
            taker_order.vals_wf(),
        ensures
            final(self).wf(),
            old(self).frame(*final(self)),
            old(self).fok_outcome(*final(self), taker_order, r),
    {
        let ghost side = taker_order.side;
        let ghost ms = opposite(side);
        let available: bool = match taker_order.side {
            OrderSide::Buy => self.sell_queue.fok_available(taker_order.price, taker_order.volumn),
            OrderSide::Sell => self.buy_queue.fok_available(taker_order.price, taker_order.volumn),
        };
        if !available {
            if let Some(rq) = &self.result_queue {
                rq.cancel_order(taker_order.id, taker_order.volumn);
            }
            return Err(OrderError::InsufficientLiquidity);
        }
        proof {
            lemma_avail_sufficient(
                flat(old(self).opp_q(side).list@),
                taker_order.price.units,
                taker_order.volumn.units,
                ms,
            );
        }
        let ghost pre = *self;
        let r = self.limit(taker_order);
        proof {
            let fpre = flat(pre.opp_q(side).list@);
            let leftover = sim_leftover(fpre, taker_order.price.units, taker_order.volumn.units,
                ms);
            assert(leftover == 0);
            if !pre.buy_queue.has_id(taker_order.id) && !pre.sell_queue.has_id(taker_order.id) {
                assert(!self.opp_q(side).has_id(taker_order.id)) by {
                    if self.opp_q(side).has_id(taker_order.id) {
                        assert(levels_contain_id(self.opp_q(side).list@, taker_order.id));
                        lemma_flat_contains_id(self.opp_q(side).list@, taker_order.id);
                        lemma_sim_ids(fpre, taker_order.price.units, taker_order.volumn.units, ms,
                            taker_order.id);
                        lemma_flat_contains_id(pre.opp_q(side).list@, taker_order.id);
                    }
                }
                lemma_ioc_not_resting(pre, *self, side, taker_order.id);
            }
        }
        r
    }

    /// The single entry point for new orders: a duplicate ID on the order's
    /// own side is rejected before anything happens; otherwise the order's
    /// kind picks the pass.
    pub fn add_order(&mut self, order: Order) -> (r: Result<bool, OrderError>)
        requires
            old(self).wf(),
            order.vals_wf(),
        ensures
            final(self).wf(),
            old(self).frame(*final(self)),
            old(self).add_outcome(*final(self), order, r),
    {
        if self.exists_order(&order) {
            return Err(OrderError::DuplicateOrder);
        }
        match order.kind {
            OrderKind::Limit => self.limit(order),
            OrderKind::Market => self.market(order),
            OrderKind::IOC => self.ioc(order),
            OrderKind::FOK => self.fok(order),
        }
    }

    /// What an explicit cancellation does: the order resting at exactly
    /// (`price`, `side`, `order_id`) is removed and returned; nothing
    /// changes, and nothing is returned, when no such order rests there.
    pub open spec fn cancel_outcome(
        self,
        post: Self,
        order_id: u64,
        price: Dec,
        side: OrderSide,
        r: Option<Order>,
    ) -> bool {
        &&& q_unchanged(self.opp_q(side), post.opp_q(side))
        &&& match r {
            None => q_unchanged(self.own_q(side), post.own_q(side)) && !has_order_at(
                self.own_q(side).list@,
                price,
                order_id,
            ),
            Some(o) => ({
                &&& o.id == order_id
                &&& o.price == price
                &&& has_order_at(self.own_q(side).list@, price, order_id)
                &&& (forall|id: u64|
                    post.own_q(side).has_id(id) <==> (self.own_q(side).has_id(id) && id
                        != order_id))
                &&& exists|i: int, j: int|
                    #![trigger removed_at(self.own_q(side).list@, post.own_q(side).list@, i, j)]
                    removed_at(self.own_q(side).list@, post.own_q(side).list@, i, j) && self.own_q(
                        side,
                    ).list@[i].price == price && self.own_q(side).list@[i].list@[j] == o
            }),
        }
    }

    /// Explicit client cancellation: removes the order resting at exactly
    /// (`price`, `side`, `order_id`) and hands it back, or nothing if no
    /// such order rests there. No notification is emitted for this.
    pub fn calcen_order(&mut self, order_id: u64, price: Dec, side: OrderSide) -> (r: Option<
        Order,
    >)
        requires
            old(self).wf(),
        ensures
            final(self).wf(),
            old(self).frame(*final(self)),
            old(self).cancel_outcome(*final(self), order_id, price, side, r),
    {
        match side {
            OrderSide::Buy => self.buy_queue.remove(price, order_id),
            OrderSide::Sell => self.sell_queue.remove(price, order_id),
        }
    }
}

/// The maker side a taker of side `side` trades against, as stored in `b`.
pub open spec fn ms_side_of<R: ResultQueue>(b: OrderBook<R>, side: OrderSide) -> OrderSide {
    b.opp_q(side).side
}

/// A matching pass against a side whose best price is out of the taker's
/// range (or which is empty) changes nothing.
proof fn lemma_sim_base(q: OrderQueue, limit_units: u128, vol: u128, ms: OrderSide)
    requires
        q.wf(),
        q.side == ms,
        q.list@.len() == 0 || !eligible(q.list@[0].price.units, limit_units, ms),
    ensures
        sim_makers(flat(q.list@), limit_units, vol, ms) == flat(q.list@),
        sim_leftover(flat(q.list@), limit_units, vol, ms) == vol,
{
    if q.list@.len() == 0 {
    } else {
        assert(q.list@[0].wf(ms));
        lemma_flat_first(q.list@);
        assert(flat(q.list@)[0] == q.list@[0].list@[0]);
        assert(flat(q.list@)[0].price == q.list@[0].price);
    }
}

} // verus!
