use vstd::prelude::*;
use crate::decimal::{Dec, MAX_UNITS};
use crate::order::{Order, OrderSide, OrderError};

verus! {

// ---------------------------------------------------------------------------
// Model
// ---------------------------------------------------------------------------

/// `a` rests strictly closer to the top of the book than `b`.
/// With `desc` (ascending storage, used for the sell side) the lowest price
/// is best; otherwise (buy side) the highest price is best.
pub open spec fn price_before(a: u128, b: u128, desc: bool) -> bool {
    if desc {
        a < b
    } else {
        a > b
    }
}

/// `a` rests at least as close to the top of the book as `b`.
pub open spec fn price_before_eq(a: u128, b: u128, desc: bool) -> bool {
    price_before(a, b, desc) || a == b
}

/// A maker at `maker_price` may trade with a taker limited to `limit_units`:
/// a resting sell matches a buy taker only at or below the taker's limit,
/// a resting buy matches a sell taker only at or above it.
pub open spec fn eligible(maker_price: u128, limit_units: u128, maker_side: OrderSide) -> bool {
    match maker_side {
        OrderSide::Sell => maker_price <= limit_units,
        OrderSide::Buy => maker_price >= limit_units,
    }
}

/// An order may rest in a level at `price` on side `side`.
pub open spec fn level_order_wf(o: Order, price: Dec, side: OrderSide) -> bool {
    &&& o.price == price
    &&& o.side == side
    &&& o.vals_wf()
}

/// All resting orders of a side, best price first, FIFO within each price.
pub open spec fn flat(levels: Seq<OrderQueueItem>) -> Seq<Order>
    decreases levels.len(),
{
    if levels.len() == 0 {
        Seq::empty()
    } else {
        levels[0].list@ + flat(levels.drop_first())
    }
}

/// Some order in `s` carries `id`.
pub open spec fn seq_has_id(s: Seq<Order>, id: u64) -> bool {
    exists|k: int| 0 <= k < s.len() && (#[trigger] s[k]).id == id
}

/// Some resting order in `levels` carries `id`.
pub open spec fn levels_contain_id(levels: Seq<OrderQueueItem>, id: u64) -> bool {
    exists|i: int, j: int|
        0 <= i < levels.len() && 0 <= j < levels[i].list@.len() && (#[trigger] levels[i].list@[j]).id
            == id
}

/// An order with `id` rests in the level priced exactly `price`.
pub open spec fn has_order_at(levels: Seq<OrderQueueItem>, price: Dec, id: u64) -> bool {
    exists|i: int, j: int|
        0 <= i < levels.len() && 0 <= j < levels[i].list@.len() && levels[i].price == price && (
        #[trigger] levels[i].list@[j]).id == id
}

/// No two resting orders share an ID.
pub open spec fn distinct_ids(levels: Seq<OrderQueueItem>) -> bool {
    forall|i1: int, j1: int, i2: int, j2: int|
        0 <= i1 < levels.len() && 0 <= j1 < levels[i1].list@.len() && 0 <= i2 < levels.len() && 0
            <= j2 < levels[i2].list@.len() && (i1 != i2 || j1 != j2) ==> (
        #[trigger] levels[i1].list@[j1]).id != (#[trigger] levels[i2].list@[j2]).id
}

/// Well-formed sequence of price levels for one side: every level is
/// non-empty and homogeneous, and levels are strictly ordered best first.
pub open spec fn level_seq_wf(levels: Seq<OrderQueueItem>, side: OrderSide, desc: bool) -> bool {
    &&& forall|i: int| 0 <= i < levels.len() ==> (#[trigger] levels[i]).wf(side)
    &&& forall|i: int, j: int|
        0 <= i < j < levels.len() ==> price_before(
            (#[trigger] levels[i]).price.units,
            (#[trigger] levels[j]).price.units,
            desc,
        )
}

/// Total quantity, in units, of a sequence of orders.
pub open spec fn sum_units(s: Seq<Order>) -> int
    decreases s.len(),
{
    if s.len() == 0 {
        0
    } else {
        sum_units(s.drop_last()) + s.last().volumn.units
    }
}

/// Number of resting orders across all levels.
pub open spec fn total_orders(levels: Seq<OrderQueueItem>) -> int
    decreases levels.len(),
{
    if levels.len() == 0 {
        0
    } else {
        total_orders(levels.drop_last()) + levels.last().list@.len()
    }
}

/// Opposing quantity a taker limited to `limit_units` could trade against
/// `makers` (best first): the total quantity of the eligible prefix.
pub open spec fn avail_units(s: Seq<Order>, limit_units: u128, maker_side: OrderSide) -> int
    decreases s.len(),
{
    if s.len() == 0 {
        0
    } else if !eligible(s[0].price.units, limit_units, maker_side) {
        0
    } else {
        s[0].volumn.units + avail_units(s.drop_first(), limit_units, maker_side)
    }
}

// ---------------------------------------------------------------------------
// One price level
// ---------------------------------------------------------------------------

/// All orders resting at one exact price, strictly in arrival (FIFO) order.
pub struct OrderQueueItem {
    pub price: Dec,
    pub list: Vec<Order>,
}

impl OrderQueueItem {
    /// A level as stored in a side: never empty, homogeneous in price and side.
    pub open spec fn wf(self, side: OrderSide) -> bool {
        &&& self.list@.len() > 0
        &&& forall|j: int|
            0 <= j < self.list@.len() ==> level_order_wf(
                #[trigger] self.list@[j],
                self.price,
                side,
            )
    }

    /// An empty level, created just before its first order is pushed.
    pub fn new(price: Dec) -> (r: OrderQueueItem)
        ensures
            r.price == price,
            r.list@.len() == 0,
    {
        OrderQueueItem { price, list: Vec::new() }
    }

    fn push(&mut self, order: Order)
        ensures
            final(self).price == old(self).price,
            final(self).list@ == old(self).list@.push(order),
    {
        self.list.push(order);
    }

    /// The oldest resting order of this level, the next to be matched.
    pub fn peek_mut(&self) -> (r: Option<&Order>)
        ensures
            match r {
                Some(o) => self.list@.len() > 0 && *o == self.list@[0],
                None => self.list@.len() == 0,
            },
    {
        if self.list.len() > 0 {
            Some(&self.list[0])
        } else {
            None
        }
    }

    fn remove(&mut self, order_id: u64) -> (r: Option<Order>)
        ensures
            final(self).price == old(self).price,
            match r {
                None => *final(self) == *old(self) && !seq_has_id(old(self).list@, order_id),
                Some(o) => exists|j: int|
                    0 <= j < old(self).list@.len() && o == old(self).list@[j] && o.id == order_id
                        && final(self).list@ == old(self).list@.remove(j) && (forall|k: int|
                        0 <= k < j ==> (#[trigger] old(self).list@[k]).id != order_id),
            },
    {
        let mut index: usize = 0;
        while index < self.list.len()
            invariant
                index <= self.list@.len(),
                forall|k: int| 0 <= k < index ==> (#[trigger] self.list@[k]).id != order_id,
                *self == *old(self),
            decreases self.list@.len() - index,
        {
            if self.list[index].id == order_id {
                let o = self.list.remove(index);
                return Some(o);
            }
            index += 1;
        }
        None
    }

    pub fn len(&self) -> (r: usize)
        ensures
            r == self.list@.len(),
    {
        self.list.len()
    }

    /// Total resting quantity of this level.
    pub fn volumn(&self) -> (r: Dec)
        requires
            sum_units(self.list@) < MAX_UNITS,
            forall|j: int| 0 <= j < self.list@.len() ==> (#[trigger] self.list@[j]).volumn.wf(),
        ensures
            r.units == sum_units(self.list@),
    {
        let ghost s = self.list@;
        let mut acc: u128 = 0;
        let mut i: usize = 0;
        proof {
            assert(s.take(0) =~= Seq::<Order>::empty());
        }
        while i < self.list.len()
            invariant
                i <= s.len(),
                self.list@ == s,
                sum_units(s) < MAX_UNITS,
                forall|j: int| 0 <= j < s.len() ==> (#[trigger] s[j]).volumn.wf(),
                acc == sum_units(s.take(i as int)),
            decreases s.len() - i,
        {
            proof {
                lemma_sum_take_succ(s, i as int);
                lemma_sum_take_le(s, i as int + 1);
            }
            acc = acc + self.list[i].volumn.units;
            i += 1;
        }
        proof {
            assert(s.take(s.len() as int) =~= s);
        }
        Dec { units: acc }
    }
}

/// Adding the `i`-th order extends the sum of the first `i`.
proof fn lemma_sum_take_succ(s: Seq<Order>, i: int)
    requires
        0 <= i < s.len(),
    ensures
        sum_units(s.take(i + 1)) == sum_units(s.take(i)) + s[i].volumn.units,
{
    assert(s.take(i + 1).drop_last() =~= s.take(i));
    assert(s.take(i + 1).last() == s[i]);
}

/// Quantities are non-negative, so a prefix sum never exceeds the total.
proof fn lemma_sum_take_le(s: Seq<Order>, i: int)
    requires
        0 <= i <= s.len(),
    ensures
        sum_units(s.take(i)) <= sum_units(s),
        sum_units(s.take(i)) >= 0,
    decreases s.len(),
{
    if i == s.len() {
        assert(s.take(i) =~= s);
        lemma_sum_nonneg(s);
    } else {
        lemma_sum_take_le(s.drop_last(), i);
        assert(s.drop_last().take(i) =~= s.take(i));
    }
}

proof fn lemma_sum_nonneg(s: Seq<Order>)
    ensures
        sum_units(s) >= 0,
    decreases s.len(),
{
    if s.len() > 0 {
        lemma_sum_nonneg(s.drop_last());
    }
}

// ---------------------------------------------------------------------------
// Shapes of one mutation, shared by contracts and proofs
// ---------------------------------------------------------------------------

pub open spec fn min_u(a: u128, b: u128) -> u128 {
    if a <= b {
        a
    } else {
        b
    }
}

/// `o` with its remaining quantity replaced.
pub open spec fn with_volumn(o: Order, u: u128) -> Order {
    Order { volumn: Dec { units: u }, ..o }
}

/// The best level's oldest order was fully consumed and dropped; the level
/// itself is dropped with it when it empties.
pub open spec fn front_removed(pre: Seq<OrderQueueItem>, post: Seq<OrderQueueItem>) -> bool
    recommends
        pre.len() > 0,
        pre[0].list@.len() > 0,
{
    if pre[0].list@.len() == 1 {
        post == pre.drop_first()
    } else {
        &&& post.len() == pre.len()
        &&& post[0].price == pre[0].price
        &&& post[0].list@ == pre[0].list@.drop_first()
        &&& forall|k: int| 1 <= k < pre.len() ==> post[k] == pre[k]
    }
}

/// The best level's oldest order was partially consumed: it stays at the
/// front with `traded` units taken off its remaining quantity.
pub open spec fn front_reduced(
    pre: Seq<OrderQueueItem>,
    post: Seq<OrderQueueItem>,
    traded: u128,
) -> bool
    recommends
        pre.len() > 0,
        pre[0].list@.len() > 0,
{
    &&& post.len() == pre.len()
    &&& post[0].price == pre[0].price
    &&& post[0].list@.len() == pre[0].list@.len()
    &&& post[0].list@[0] == with_volumn(
        pre[0].list@[0],
        (pre[0].list@[0].volumn.units - traded) as u128,
    )
    &&& forall|k: int| 1 <= k < pre[0].list@.len() ==> post[0].list@[k] == pre[0].list@[k]
    &&& forall|k: int| 1 <= k < pre.len() ==> post[k] == pre[k]
}

/// `o` was placed at the back of the level holding its exact price, the
/// level being created at its price-ordered position if it was absent.
pub open spec fn pushed_levels(
    pre: Seq<OrderQueueItem>,
    post: Seq<OrderQueueItem>,
    o: Order,
) -> bool {
    ||| (exists|i: int|
        0 <= i < pre.len() && (#[trigger] pre[i]).price == o.price && post.len() == pre.len()
            && post[i].price == o.price && post[i].list@ == pre[i].list@.push(o) && (forall|k: int|
            0 <= k < pre.len() && k != i ==> post[k] == pre[k]))
    ||| ((forall|i: int| 0 <= i < pre.len() ==> (#[trigger] pre[i]).price != o.price) && (exists|
        i: int|
        0 <= i <= pre.len() && post.len() == pre.len() + 1 && (#[trigger] post[i]).price == o.price
            && post[i].list@.len() == 1 && post[i].list@[0] == o && (forall|k: int|
            0 <= k < i ==> post[k] == pre[k]) && (forall|k: int|
            i <= k < pre.len() ==> post[k + 1] == pre[k])))
}

// ---------------------------------------------------------------------------
// ID-list helpers
// ---------------------------------------------------------------------------

proof fn lemma_push_contains(v: Seq<u64>, x: u64)
    ensures
        forall|y: u64| v.push(x).contains(y) <==> (v.contains(y) || y == x),
{
    assert forall|y: u64| v.push(x).contains(y) implies (v.contains(y) || y == x) by {
        let k = choose|k: int| 0 <= k < v.push(x).len() && v.push(x)[k] == y;
        if k < v.len() {
            assert(v[k] == y);
        }
    }
    assert forall|y: u64| (v.contains(y) || y == x) implies v.push(x).contains(y) by {
        if v.contains(y) {
            let k = choose|k: int| 0 <= k < v.len() && v[k] == y;
            assert(v.push(x)[k] == y);
        } else {
            assert(v.push(x)[v.len() as int] == y);
        }
    }
}

proof fn lemma_push_no_dup(v: Seq<u64>, x: u64)
    requires
        v.no_duplicates(),
        !v.contains(x),
    ensures
        v.push(x).no_duplicates(),
{
    let w = v.push(x);
    assert forall|a: int, b: int| 0 <= a < w.len() && 0 <= b < w.len() && a != b implies w[a]
        != w[b] by {
        if a < v.len() && b < v.len() {
        } else if a < v.len() {
            assert(w[b] == x);
            assert(v[a] != x) by {
                if v[a] == x {
                    assert(v.contains(x));
                }
            }
        } else {
            assert(w[a] == x);
            assert(v[b] != x) by {
                if v[b] == x {
                    assert(v.contains(x));
                }
            }
        }
    }
}

/// Removes `id` from a duplicate-free ID list, if present.
fn remove_u64(v: &mut Vec<u64>, id: u64)
    requires
        old(v)@.no_duplicates(),
    ensures
        final(v)@.no_duplicates(),
        forall|x: u64| final(v)@.contains(x) <==> (old(v)@.contains(x) && x != id),
{
    let mut i: usize = 0;
    while i < v.len()
        invariant
            i <= old(v)@.len(),
            v@ == old(v)@,
            old(v)@.no_duplicates(),
            forall|k: int| 0 <= k < i ==> old(v)@[k] != id,
        decreases old(v)@.len() - i,
    {
        if v[i] == id {
            let ghost pre = v@;
            v.remove(i);
            proof {
                pre.remove_ensures(i as int);
                assert forall|x: u64| v@.contains(x) <==> (pre.contains(x) && x != id) by {
                    assert(pre[i as int] == id);
                    if v@.contains(x) {
                        let k = choose|k: int| 0 <= k < v@.len() && v@[k] == x;
                        if k < i {
                            assert(pre[k] == x);
                        } else {
                            assert(pre[k + 1] == x);
                        }
                    }
                    if pre.contains(x) && x != id {
                        let k = choose|k: int| 0 <= k < pre.len() && pre[k] == x;
                        if k < i {
                            assert(v@[k] == x);
                        } else {
                            assert(k != i);
                            assert(v@[k - 1] == x);
                        }
                    }
                }
                assert forall|a: int, b: int|
                    0 <= a < v@.len() && 0 <= b < v@.len() && a != b implies v@[a] != v@[b] by {
                    let a0: int = if a < i { a } else { a + 1 };
                    let b0: int = if b < i { b } else { b + 1 };
                    assert(v@[a] == pre[a0]);
                    assert(v@[b] == pre[b0]);
                }
            }
            return ;
        }
        i += 1;
    }
    proof {
        assert forall|x: u64| v@.contains(x) implies (old(v)@.contains(x) && x != id) by {
            let k = choose|k: int| 0 <= k < v@.len() && v@[k] == x;
            assert(old(v)@[k] != id);
        }
    }
}

// ---------------------------------------------------------------------------
// Invariant preservation lemmas
// ---------------------------------------------------------------------------

/// Removing the `j`-th order of the `i`-th level (dropping the level when it
/// empties) keeps a side well formed and removes exactly that order's ID.
proof fn lemma_wf_after_remove_at(
    pre: Seq<OrderQueueItem>,
    post: Seq<OrderQueueItem>,
    i: int,
    j: int,
    side: OrderSide,
    desc: bool,
)
    requires
        level_seq_wf(pre, side, desc),
        distinct_ids(pre),
        0 <= i < pre.len(),
        0 <= j < pre[i].list@.len(),
        if pre[i].list@.len() == 1 {
            post == pre.remove(i)
        } else {
            post.len() == pre.len() && post[i].price == pre[i].price && post[i].list@
                == pre[i].list@.remove(j) && (forall|k: int|
                0 <= k < pre.len() && k != i ==> post[k] == pre[k])
        },
    ensures
        level_seq_wf(post, side, desc),
        distinct_ids(post),
        forall|id: u64|
            levels_contain_id(post, id) <==> (levels_contain_id(pre, id) && id != pre[i].list@[j].id),
{
    let rid = pre[i].list@[j].id;
    if pre[i].list@.len() == 1 {
        pre.remove_ensures(i);
        assert forall|a: int| 0 <= a < post.len() implies (#[trigger] post[a]).wf(side) by {
            if a < i {
                assert(post[a] == pre[a]);
            } else {
                assert(post[a] == pre[a + 1]);
            }
        }
        assert forall|a: int, b: int| 0 <= a < b < post.len() implies price_before(
            (#[trigger] post[a]).price.units,
            (#[trigger] post[b]).price.units,
            desc,
        ) by {
            let a0: int = if a < i { a } else { a + 1 };
            let b0: int = if b < i { b } else { b + 1 };
            assert(post[a] == pre[a0]);
            assert(post[b] == pre[b0]);
            assert(price_before(pre[a0].price.units, pre[b0].price.units, desc));
        }
        assert forall|a1: int, b1: int, a2: int, b2: int|
            0 <= a1 < post.len() && 0 <= b1 < post[a1].list@.len() && 0 <= a2 < post.len() && 0
                <= b2 < post[a2].list@.len() && (a1 != a2 || b1 != b2) implies (
        #[trigger] post[a1].list@[b1]).id != (#[trigger] post[a2].list@[b2]).id by {
            let a10: int = if a1 < i { a1 } else { a1 + 1 };
            let a20: int = if a2 < i { a2 } else { a2 + 1 };
            assert(post[a1] == pre[a10]);
            assert(post[a2] == pre[a20]);
            assert(pre[a10].list@[b1].id != pre[a20].list@[b2].id);
        }
        assert forall|id: u64| levels_contain_id(post, id) <==> (levels_contain_id(pre, id) && id
            != rid) by {
            if levels_contain_id(post, id) {
                let (a, b) = choose|a: int, b: int|
                    0 <= a < post.len() && 0 <= b < post[a].list@.len() && (
                    #[trigger] post[a].list@[b]).id == id;
                let a0: int = if a < i { a } else { a + 1 };
                assert(post[a] == pre[a0]);
                assert(pre[a0].list@[b].id == id);
                assert(a0 != i);
                assert(pre[a0].list@[b].id != pre[i].list@[j].id);
            }
            if levels_contain_id(pre, id) && id != rid {
                let (a, b) = choose|a: int, b: int|
                    0 <= a < pre.len() && 0 <= b < pre[a].list@.len() && (
                    #[trigger] pre[a].list@[b]).id == id;
                assert(a != i || b != j);
                assert(a != i) by {
                    if a == i {
                        assert(b == 0 && j == 0);
                    }
                }
                if a < i {
                    assert(post[a].list@[b].id == id);
                } else {
                    assert(post[a - 1] == pre[a]);
                    assert(post[a - 1].list@[b].id == id);
                }
            }
        }
    } else {
        pre[i].list@.remove_ensures(j);
        assert forall|a: int| 0 <= a < post.len() implies (#[trigger] post[a]).wf(side) by {
            if a != i {
                assert(post[a] == pre[a]);
            } else {
                assert forall|b: int|
                    0 <= b < post[i].list@.len() implies level_order_wf(
                    #[trigger] post[i].list@[b],
                    post[i].price,
                    side,
                ) by {
                    let b0: int = if b < j { b } else { b + 1 };
                    assert(post[i].list@[b] == pre[i].list@[b0]);
                }
            }
        }
        assert forall|a: int, b: int| 0 <= a < b < post.len() implies price_before(
            (#[trigger] post[a]).price.units,
            (#[trigger] post[b]).price.units,
            desc,
        ) by {
            assert(post[a].price == pre[a].price);
            assert(post[b].price == pre[b].price);
        }
        assert forall|a1: int, b1: int, a2: int, b2: int|
            0 <= a1 < post.len() && 0 <= b1 < post[a1].list@.len() && 0 <= a2 < post.len() && 0
                <= b2 < post[a2].list@.len() && (a1 != a2 || b1 != b2) implies (
        #[trigger] post[a1].list@[b1]).id != (#[trigger] post[a2].list@[b2]).id by {
            let b10: int = if a1 != i || b1 < j { b1 } else { b1 + 1 };
            let b20: int = if a2 != i || b2 < j { b2 } else { b2 + 1 };
            assert(post[a1].list@[b1] == pre[a1].list@[b10]);
            assert(post[a2].list@[b2] == pre[a2].list@[b20]);
            assert(pre[a1].list@[b10].id != pre[a2].list@[b20].id);
        }
        assert forall|id: u64| levels_contain_id(post, id) <==> (levels_contain_id(pre, id) && id
            != rid) by {
            if levels_contain_id(post, id) {
                let (a, b) = choose|a: int, b: int|
                    0 <= a < post.len() && 0 <= b < post[a].list@.len() && (
                    #[trigger] post[a].list@[b]).id == id;
                let b0: int = if a != i || b < j { b } else { b + 1 };
                assert(post[a].list@[b] == pre[a].list@[b0]);
                assert(pre[a].list@[b0].id == id);
                assert(a != i || b0 != j);
                assert(pre[a].list@[b0].id != pre[i].list@[j].id);
            }
            if levels_contain_id(pre, id) && id != rid {
                let (a, b) = choose|a: int, b: int|
                    0 <= a < pre.len() && 0 <= b < pre[a].list@.len() && (
                    #[trigger] pre[a].list@[b]).id == id;
                assert(a != i || b != j);
                if a != i {
                    assert(post[a].list@[b].id == id);
                } else {
                    let b1: int = if b < j { b } else { b - 1 };
                    assert(post[i].list@[b1] == pre[i].list@[b]);
                    assert(post[i].list@[b1].id == id);
                }
            }
        }
    }
}

/// Reducing the remaining quantity of the best level's oldest order (without
/// emptying it) keeps a side well formed and leaves every ID in place.
proof fn lemma_wf_after_front_reduced(
    pre: Seq<OrderQueueItem>,
    post: Seq<OrderQueueItem>,
    traded: u128,
    side: OrderSide,
    desc: bool,
)
    requires
        level_seq_wf(pre, side, desc),
        distinct_ids(pre),
        pre.len() > 0,
        pre[0].list@.len() > 0,
        0 < traded < pre[0].list@[0].volumn.units,
        front_reduced(pre, post, traded),
    ensures
        level_seq_wf(post, side, desc),
        distinct_ids(post),
        forall|id: u64| levels_contain_id(post, id) <==> levels_contain_id(pre, id),
{
    assert forall|a: int, b: int|
        0 <= a < post.len() && 0 <= b < post[a].list@.len() implies (#[trigger] post[a].list@[b]).id
        == pre[a].list@[b].id && post[a].list@.len() == pre[a].list@.len() by {
        if a > 0 {
            assert(post[a] == pre[a]);
        } else if b > 0 {
            assert(post[0].list@[b] == pre[0].list@[b]);
        }
    }
    assert forall|a: int| 0 <= a < post.len() implies (#[trigger] post[a]).wf(side) by {
        if a > 0 {
            assert(post[a] == pre[a]);
        } else {
            assert forall|b: int|
                0 <= b < post[0].list@.len() implies level_order_wf(
                #[trigger] post[0].list@[b],
                post[0].price,
                side,
            ) by {
                if b > 0 {
                    assert(post[0].list@[b] == pre[0].list@[b]);
                } else {
                    assert(level_order_wf(pre[0].list@[0], pre[0].price, side));
                }
            }
        }
    }
    assert forall|a: int, b: int| 0 <= a < b < post.len() implies price_before(
        (#[trigger] post[a]).price.units,
        (#[trigger] post[b]).price.units,
        desc,
    ) by {
        assert(post[a].price == pre[a].price);
        assert(post[b].price == pre[b].price);
    }
    assert forall|id: u64| levels_contain_id(post, id) <==> levels_contain_id(pre, id) by {
        if levels_contain_id(post, id) {
            let (a, b) = choose|a: int, b: int|
                0 <= a < post.len() && 0 <= b < post[a].list@.len() && (
                #[trigger] post[a].list@[b]).id == id;
            assert(pre[a].list@[b].id == id);
        }
        if levels_contain_id(pre, id) {
            let (a, b) = choose|a: int, b: int|
                0 <= a < pre.len() && 0 <= b < pre[a].list@.len() && (#[trigger] pre[a].list@[b]).id
                    == id;
            assert(post[a].list@[b].id == id);
        }
    }
}

/// Appending a fresh order to the level at its exact price keeps a side well
/// formed and adds exactly that order's ID.
proof fn lemma_wf_after_append(
    pre: Seq<OrderQueueItem>,
    post: Seq<OrderQueueItem>,
    i: int,
    o: Order,
    side: OrderSide,
    desc: bool,
)
    requires
        level_seq_wf(pre, side, desc),
        distinct_ids(pre),
        !levels_contain_id(pre, o.id),
        0 <= i < pre.len(),
        level_order_wf(o, pre[i].price, side),
        post.len() == pre.len(),
        post[i].price == pre[i].price,
        post[i].list@ == pre[i].list@.push(o),
        forall|k: int| 0 <= k < pre.len() && k != i ==> post[k] == pre[k],
    ensures
        level_seq_wf(post, side, desc),
        distinct_ids(post),
        forall|id: u64| levels_contain_id(post, id) <==> (levels_contain_id(pre, id) || id == o.id),
{
    let n = pre[i].list@.len() as int;
    assert forall|a: int| 0 <= a < post.len() implies (#[trigger] post[a]).wf(side) by {
        if a != i {
            assert(post[a] == pre[a]);
        } else {
            assert forall|b: int|
                0 <= b < post[i].list@.len() implies level_order_wf(
                #[trigger] post[i].list@[b],
                post[i].price,
                side,
            ) by {
                if b < n {
                    assert(post[i].list@[b] == pre[i].list@[b]);
                } else {
                    assert(post[i].list@[b] == o);
                }
            }
        }
    }
    assert forall|a: int, b: int| 0 <= a < b < post.len() implies price_before(
        (#[trigger] post[a]).price.units,
        (#[trigger] post[b]).price.units,
        desc,
    ) by {
        assert(post[a].price == pre[a].price);
        assert(post[b].price == pre[b].price);
    }
    assert forall|a1: int, b1: int, a2: int, b2: int|
        0 <= a1 < post.len() && 0 <= b1 < post[a1].list@.len() && 0 <= a2 < post.len() && 0 <= b2
            < post[a2].list@.len() && (a1 != a2 || b1 != b2) implies (
    #[trigger] post[a1].list@[b1]).id != (#[trigger] post[a2].list@[b2]).id by {
        if a1 == i && b1 == n {
            assert(post[a1].list@[b1] == o);
            assert(post[a2].list@[b2] == pre[a2].list@[b2]);
            assert(pre[a2].list@[b2].id != o.id) by {
                if pre[a2].list@[b2].id == o.id {
                    assert(levels_contain_id(pre, o.id));
                }
            }
        } else if a2 == i && b2 == n {
            assert(post[a2].list@[b2] == o);
            assert(post[a1].list@[b1] == pre[a1].list@[b1]);
            assert(pre[a1].list@[b1].id != o.id) by {
                if pre[a1].list@[b1].id == o.id {
                    assert(levels_contain_id(pre, o.id));
                }
            }
        } else {
            assert(post[a1].list@[b1] == pre[a1].list@[b1]);
            assert(post[a2].list@[b2] == pre[a2].list@[b2]);
            assert(pre[a1].list@[b1].id != pre[a2].list@[b2].id);
        }
    }
    assert forall|id: u64| levels_contain_id(post, id) <==> (levels_contain_id(pre, id) || id
        == o.id) by {
        if levels_contain_id(post, id) {
            let (a, b) = choose|a: int, b: int|
                0 <= a < post.len() && 0 <= b < post[a].list@.len() && (
                #[trigger] post[a].list@[b]).id == id;
            if a == i && b == n {
                assert(id == o.id);
            } else {
                assert(post[a].list@[b] == pre[a].list@[b]);
                assert(pre[a].list@[b].id == id);
            }
        }
        if levels_contain_id(pre, id) {
            let (a, b) = choose|a: int, b: int|
                0 <= a < pre.len() && 0 <= b < pre[a].list@.len() && (#[trigger] pre[a].list@[b]).id
                    == id;
            assert(post[a].list@[b].id == id);
        }
        if id == o.id {
            assert(post[i].list@[n].id == id);
        }
    }
}

/// Inserting a fresh order as a new one-order level at its price-ordered
/// position keeps a side well formed and adds exactly that order's ID.
proof fn lemma_wf_after_new_level(
    pre: Seq<OrderQueueItem>,
    post: Seq<OrderQueueItem>,
    i: int,
    o: Order,
    side: OrderSide,
    desc: bool,
)
    requires
        level_seq_wf(pre, side, desc),
        distinct_ids(pre),
        !levels_contain_id(pre, o.id),
        o.vals_wf(),
        o.side == side,
        0 <= i <= pre.len(),
        forall|k: int|
            0 <= k < i ==> price_before((#[trigger] pre[k]).price.units, o.price.units, desc),
        forall|k: int|
            i <= k < pre.len() ==> price_before(o.price.units, (#[trigger] pre[k]).price.units, desc),
        post.len() == pre.len() + 1,
        post[i].price == o.price,
        post[i].list@.len() == 1,
        post[i].list@[0] == o,
        forall|k: int| 0 <= k < i ==> post[k] == pre[k],
        forall|k: int| i <= k < pre.len() ==> post[k + 1] == pre[k],
    ensures
        level_seq_wf(post, side, desc),
        distinct_ids(post),
        forall|id: u64| levels_contain_id(post, id) <==> (levels_contain_id(pre, id) || id == o.id),
{
    assert forall|a: int| 0 <= a < post.len() implies (#[trigger] post[a]).wf(side) by {
        if a < i {
            assert(post[a] == pre[a]);
        } else if a > i {
            assert(post[a] == pre[a - 1]);
        } else {
            assert forall|b: int|
                0 <= b < post[i].list@.len() implies level_order_wf(
                #[trigger] post[i].list@[b],
                post[i].price,
                side,
            ) by {
                assert(post[i].list@[b] == o);
            }
        }
    }
    assert forall|a: int, b: int| 0 <= a < b < post.len() implies price_before(
        (#[trigger] post[a]).price.units,
        (#[trigger] post[b]).price.units,
        desc,
    ) by {
        if a < i {
            assert(post[a] == pre[a]);
        } else if a > i {
            assert(post[a] == pre[a - 1]);
        }
        if b < i {
            assert(post[b] == pre[b]);
        } else if b > i {
            assert(post[b] == pre[b - 1]);
        }
    }
    assert forall|a1: int, b1: int, a2: int, b2: int|
        0 <= a1 < post.len() && 0 <= b1 < post[a1].list@.len() && 0 <= a2 < post.len() && 0 <= b2
            < post[a2].list@.len() && (a1 != a2 || b1 != b2) implies (
    #[trigger] post[a1].list@[b1]).id != (#[trigger] post[a2].list@[b2]).id by {
        if a1 == i {
            assert(post[a1].list@[b1] == o);
            let a20: int = if a2 < i { a2 } else { a2 - 1 };
            assert(post[a2] == pre[a20]);
            assert(pre[a20].list@[b2].id != o.id) by {
                if pre[a20].list@[b2].id == o.id {
                    assert(levels_contain_id(pre, o.id));
                }
            }
        } else if a2 == i {
            assert(post[a2].list@[b2] == o);
            let a10: int = if a1 < i { a1 } else { a1 - 1 };
            assert(post[a1] == pre[a10]);
            assert(pre[a10].list@[b1].id != o.id) by {
                if pre[a10].list@[b1].id == o.id {
                    assert(levels_contain_id(pre, o.id));
                }
            }
        } else {
            let a10: int = if a1 < i { a1 } else { a1 - 1 };
            let a20: int = if a2 < i { a2 } else { a2 - 1 };
            assert(post[a1] == pre[a10]);
            assert(post[a2] == pre[a20]);
            assert(pre[a10].list@[b1].id != pre[a20].list@[b2].id);
        }
    }
    assert forall|id: u64| levels_contain_id(post, id) <==> (levels_contain_id(pre, id) || id
        == o.id) by {
        if levels_contain_id(post, id) {
            let (a, b) = choose|a: int, b: int|
                0 <= a < post.len() && 0 <= b < post[a].list@.len() && (
                #[trigger] post[a].list@[b]).id == id;
            if a == i {
                assert(post[a].list@[b] == o);
            } else {
                let a0: int = if a < i { a } else { a - 1 };
                assert(post[a] == pre[a0]);
                assert(pre[a0].list@[b].id == id);
            }
        }
        if levels_contain_id(pre, id) {
            let (a, b) = choose|a: int, b: int|
                0 <= a < pre.len() && 0 <= b < pre[a].list@.len() && (#[trigger] pre[a].list@[b]).id
                    == id;
            if a < i {
                assert(post[a].list@[b].id == id);
            } else {
                assert(post[a + 1] == pre[a]);
                assert(post[a + 1].list@[b].id == id);
            }
        }
        if id == o.id {
            assert(post[i].list@[0].id == id);
        }
    }
}

// ---------------------------------------------------------------------------
// One side of a book
// ---------------------------------------------------------------------------

/// The removal of the order at position `j` of level `i`, the level being
/// dropped when it empties.
pub open spec fn removed_at(
    pre: Seq<OrderQueueItem>,
    post: Seq<OrderQueueItem>,
    i: int,
    j: int,
) -> bool {
    &&& 0 <= i < pre.len()
    &&& 0 <= j < pre[i].list@.len()
    &&& if pre[i].list@.len() == 1 {
        post == pre.remove(i)
    } else {
        post.len() == pre.len() && post[i].price == pre[i].price && post[i].list@
            == pre[i].list@.remove(j) && (forall|k: int|
            0 <= k < pre.len() && k != i ==> post[k] == pre[k])
    }
}

/// Observable state of a side did not change.
pub open spec fn q_unchanged(a: OrderQueue, b: OrderQueue) -> bool {
    &&& b.side == a.side
    &&& b.desc == a.desc
    &&& b.list@ == a.list@
    &&& b.order_ids@ == a.order_ids@
}

/// All resting orders of one side of one book: price levels held best price
/// first, plus the set of resting order IDs for duplicate detection.
pub struct OrderQueue {
    pub side: OrderSide,
    pub desc: bool,
    pub list: Vec<OrderQueueItem>,
    pub order_ids: Vec<u64>,
}

impl OrderQueue {
    /// An order with `id` currently rests on this side.
    pub open spec fn has_id(self, id: u64) -> bool {
        self.order_ids@.contains(id)
    }

    /// The side's invariant: levels well formed and strictly price-ordered
    /// best first, resting IDs pairwise distinct, and the ID set holds an ID
    /// exactly when an order carrying it rests in some level.
    pub open spec fn wf(self) -> bool {
        &&& level_seq_wf(self.list@, self.side, self.desc)
        &&& distinct_ids(self.list@)
        &&& self.order_ids@.no_duplicates()
        &&& forall|id: u64|
            #![trigger self.order_ids@.contains(id)]
            #![trigger levels_contain_id(self.list@, id)]
            self.order_ids@.contains(id) <==> levels_contain_id(self.list@, id)
    }

    /// An empty side. `desc` picks the storage order: ascending for the sell
    /// side (lowest ask first), descending for the buy side (highest bid
    /// first).
    pub fn new(side: OrderSide, desc: bool) -> (r: OrderQueue)
        ensures
            r.wf(),
            r.side == side,
            r.desc == desc,
            r.list@.len() == 0,
            r.order_ids@.len() == 0,
    {
        OrderQueue { side, desc, list: Vec::new(), order_ids: Vec::new() }
    }

    /// O(set) membership test against the resting-ID set.
    pub fn exists_order_id(&self, order_id: u64) -> (r: bool)
        ensures
            r == self.has_id(order_id),
    {
        let mut i: usize = 0;
        while i < self.order_ids.len()
            invariant
                i <= self.order_ids@.len(),
                forall|k: int| 0 <= k < i ==> self.order_ids@[k] != order_id,
            decreases self.order_ids@.len() - i,
        {
            if self.order_ids[i] == order_id {
                return true;
            }
            i += 1;
        }
        proof {
            assert(!self.order_ids@.contains(order_id)) by {
                if self.order_ids@.contains(order_id) {
                    let k = choose|k: int|
                        0 <= k < self.order_ids@.len() && self.order_ids@[k] == order_id;
                    assert(self.order_ids@[k] != order_id);
                }
            }
        }
        false
    }

    /// The best resting price of this side, if any: highest bid or lowest ask.
    pub fn first_price(&self) -> (r: Option<Dec>)
        requires
            self.wf(),
        ensures
            match r {
                None => self.list@.len() == 0,
                Some(p) => self.list@.len() > 0 && p == self.list@[0].price && (forall|k: int|
                    1 <= k < self.list@.len() ==> price_before(
                        p.units,
                        (#[trigger] self.list@[k]).price.units,
                        self.desc,
                    )),
            },
    {
        if self.list.len() > 0 {
            Some(self.list[0].price)
        } else {
            None
        }
    }

    /// The best price level of this side, if any.
    pub fn first_depth(&self) -> (r: Option<&OrderQueueItem>)
        ensures
            match r {
                None => self.list@.len() == 0,
                Some(l) => self.list@.len() > 0 && *l == self.list@[0],
            },
    {
        if self.list.len() > 0 {
            Some(&self.list[0])
        } else {
            None
        }
    }

    /// Number of orders resting on this side, over all levels.
    pub fn len(&self) -> (r: usize)
        requires
            total_orders(self.list@) <= usize::MAX,
        ensures
            r == total_orders(self.list@),
    {
        let mut c: usize = 0;
        let mut i: usize = 0;
        proof {
            assert(self.list@.take(0) =~= Seq::<OrderQueueItem>::empty());
        }
        while i < self.list.len()
            invariant
                i <= self.list@.len(),
                total_orders(self.list@) <= usize::MAX,
                c == total_orders(self.list@.take(i as int)),
            decreases self.list@.len() - i,
        {
            proof {
                lemma_total_take_succ(self.list@, i as int);
                lemma_total_take_le(self.list@, i as int + 1);
            }
            c = c + self.list[i].len();
            i += 1;
        }
        proof {
            assert(self.list@.take(self.list@.len() as int) =~= self.list@);
        }
        c
    }

    /// Rests `order` on this side: rejected as a duplicate when its ID is
    /// already resting, otherwise placed at the back of the level holding its
    /// exact price, the level being created at its price-ordered position.
    pub fn push(&mut self, order: Order) -> (r: Result<bool, OrderError>)
        requires
            old(self).wf(),
            order.vals_wf(),
            order.side == old(self).side,
        ensures
            final(self).wf(),
            final(self).side == old(self).side,
            final(self).desc == old(self).desc,
            match r {
                Err(e) => e == OrderError::DuplicateOrder && old(self).has_id(order.id)
                    && q_unchanged(*old(self), *final(self)),
                Ok(b) => b && !old(self).has_id(order.id) && final(self).order_ids@ == old(
                    self,
                ).order_ids@.push(order.id) && pushed_levels(
                    old(self).list@,
                    final(self).list@,
                    order,
                ),
            },
    {
        if self.exists_order_id(order.id) {
            return Err(OrderError::DuplicateOrder);
        }
        proof {
            lemma_push_contains(self.order_ids@, order.id);
            lemma_push_no_dup(self.order_ids@, order.id);
        }
        self.order_ids.push(order.id);
        let mut i: usize = 0;
        while i < self.list.len()
            invariant
                old(self).wf(),
                order.vals_wf(),
                order.side == old(self).side,
                !old(self).has_id(order.id),
                !levels_contain_id(old(self).list@, order.id),
                self.side == old(self).side,
                self.desc == old(self).desc,
                self.list@ == old(self).list@,
                self.order_ids@ == old(self).order_ids@.push(order.id),
                self.order_ids@.no_duplicates(),
                forall|x: u64|
                    self.order_ids@.contains(x) <==> (old(self).order_ids@.contains(x) || x
                        == order.id),
                i <= self.list@.len(),
                forall|k: int|
                    0 <= k < i ==> price_before(
                        (#[trigger] old(self).list@[k]).price.units,
                        order.price.units,
                        old(self).desc,
                    ),
            decreases self.list@.len() - i,
        {
            let ghost pre = old(self).list@;
            let ii = i;
            let p: u128 = self.list[ii].price.units;
            if p == order.price.units {
                proof {
                    assert(pre[ii as int].price == order.price);
                }
                let mut level = self.list.remove(ii);
                level.push(order);
                let ghost lv = level;
                self.list.insert(ii, level);
                proof {
                    let iq = ii as int;
                    pre.remove_ensures(iq);
                    pre.remove(iq).insert_ensures(iq, lv);
                    assert(self.list@[iq] == lv);
                    assert forall|k: int|
                        0 <= k < pre.len() && k != iq implies self.list@[k] == pre[k] by {
                        if k < iq {
                            assert(self.list@[k] == pre.remove(iq)[k]);
                        } else {
                            assert(self.list@[k] == pre.remove(iq)[k - 1]);
                        }
                    }
                    lemma_wf_after_append(pre, self.list@, iq, order, self.side, self.desc);
                    assert forall|id: u64|
                        self.order_ids@.contains(id) <==> levels_contain_id(self.list@, id) by {
                        assert(old(self).order_ids@.contains(id) <==> levels_contain_id(pre, id));
                        assert(levels_contain_id(self.list@, id) <==> (levels_contain_id(pre, id)
                            || id == order.id));
                    }
                    assert(pushed_levels(pre, self.list@, order)) by {
                        assert(pre[iq].price == order.price && self.list@.len() == pre.len()
                            && self.list@[iq].price == order.price && self.list@[iq].list@
                            == pre[iq].list@.push(order));
                    }
                }
                return Ok(true);
            }
            let goes_before: bool = if self.desc {
                order.price.units < p
            } else {
                order.price.units > p
            };
            if goes_before {
                let mut level = OrderQueueItem::new(order.price);
                level.push(order);
                let ghost lv = level;
                self.list.insert(ii, level);
                proof {
                    let iq = ii as int;
                    pre.insert_ensures(iq, lv);
                    assert(self.list@[iq] == lv);
                    assert forall|k: int|
                        iq <= k < pre.len() implies price_before(
                        order.price.units,
                        (#[trigger] pre[k]).price.units,
                        self.desc,
                    ) by {
                        if k > iq {
                            assert(price_before(pre[iq].price.units, pre[k].price.units, self.desc));
                        }
                    }
                    lemma_wf_after_new_level(pre, self.list@, iq, order, self.side, self.desc);
                    assert forall|id: u64|
                        self.order_ids@.contains(id) <==> levels_contain_id(self.list@, id) by {
                        assert(old(self).order_ids@.contains(id) <==> levels_contain_id(pre, id));
                        assert(levels_contain_id(self.list@, id) <==> (levels_contain_id(pre, id)
                            || id == order.id));
                    }
                    assert forall|k: int|
                        0 <= k < pre.len() implies (#[trigger] pre[k]).price != order.price by {
                        if k < iq {
                            assert(price_before(pre[k].price.units, order.price.units, self.desc));
                        } else {
                            assert(price_before(order.price.units, pre[k].price.units, self.desc));
                        }
                    }
                    assert(pushed_levels(pre, self.list@, order)) by {
                        assert(self.list@[iq].price == order.price && self.list@.len() == pre.len()
                            + 1 && self.list@[iq].list@.len() == 1 && self.list@[iq].list@[0]
                            == order);
                        assert forall|k: int| 0 <= k < iq implies self.list@[k] == pre[k] by {}
                        assert forall|k: int|
                            iq <= k < pre.len() implies self.list@[k + 1] == pre[k] by {}
                    }
                }
                return Ok(true);
            }
            i += 1;
        }
        let ghost pre = old(self).list@;
        let mut level = OrderQueueItem::new(order.price);
        level.push(order);
        let ghost lv = level;
        let ghost n = pre.len() as int;
        self.list.push(level);
        proof {
            assert(self.list@ == pre.push(lv));
            assert(self.list@[n] == lv);
            assert forall|k: int| 0 <= k < n implies self.list@[k] == pre[k] by {}
            lemma_wf_after_new_level(pre, self.list@, n, order, self.side, self.desc);
            assert forall|id: u64|
                self.order_ids@.contains(id) <==> levels_contain_id(self.list@, id) by {
                assert(old(self).order_ids@.contains(id) <==> levels_contain_id(pre, id));
                assert(levels_contain_id(self.list@, id) <==> (levels_contain_id(pre, id) || id
                    == order.id));
            }
            assert forall|k: int| 0 <= k < pre.len() implies (#[trigger] pre[k]).price
                != order.price by {
                assert(price_before(pre[k].price.units, order.price.units, self.desc));
            }
            assert(pushed_levels(pre, self.list@, order)) by {
                assert(self.list@[n].price == order.price && self.list@.len() == pre.len() + 1
                    && self.list@[n].list@.len() == 1 && self.list@[n].list@[0] == order);
            }
        }
        Ok(true)
    }

    /// One matching step: trades `min(maker remaining, taker_vol)` against
    /// the oldest order at the best price, dropping that order (and its
    /// emptied level) when fully consumed. Returns the maker's ID, the traded
    /// quantity and the maker's price.
    pub fn first_order(&mut self, taker_vol: Dec) -> (r: Option<(u64, Dec, Dec)>)
        requires
            old(self).wf(),
            0 < taker_vol.units,
        ensures
            final(self).wf(),
            final(self).side == old(self).side,
            final(self).desc == old(self).desc,
            match r {
                None => q_unchanged(*old(self), *final(self)) && old(self).list@.len() == 0,
                Some(step) => ({
                    let pre = old(self).list@;
                    let maker = pre[0].list@[0];
                    let traded = min_u(maker.volumn.units, taker_vol.units);
                    &&& pre.len() > 0
                    &&& step.0 == maker.id
                    &&& step.1.units == traded
                    &&& step.2 == maker.price
                    &&& if traded == maker.volumn.units {
                        front_removed(pre, final(self).list@) && (forall|id: u64|
                            final(self).has_id(id) <==> (old(self).has_id(id) && id != maker.id))
                    } else {
                        front_reduced(pre, final(self).list@, traded) && final(self).order_ids@
                            == old(self).order_ids@
                    }
                }),
            },
    {
        if self.list.len() == 0 {
            return None;
        }
        let ghost pre = old(self).list@;
        proof {
            assert(pre[0].wf(self.side));
        }
        let mut level = self.list.remove(0);
        let maker = level.list.remove(0);
        let traded: u128 = if maker.volumn.units <= taker_vol.units {
            maker.volumn.units
        } else {
            taker_vol.units
        };
        let maker_id = maker.id;
        let maker_price = maker.price;
        if traded == maker.volumn.units {
            remove_u64(&mut self.order_ids, maker_id);
            if level.list.len() > 0 {
                let ghost lv = level;
                self.list.insert(0, level);
                proof {
                    pre.drop_first().insert_ensures(0, lv);
                    assert(pre.remove(0) =~= pre.drop_first());
                    assert(self.list@[0] == lv);
                    assert(lv.list@ == pre[0].list@.remove(0));
                    assert forall|k: int| 1 <= k < pre.len() implies self.list@[k] == pre[k] by {
                        assert(self.list@[k] == pre.drop_first()[k - 1]);
                    }
                    lemma_wf_after_remove_at(pre, self.list@, 0, 0, self.side, self.desc);
                    assert forall|id: u64|
                        self.order_ids@.contains(id) <==> levels_contain_id(self.list@, id) by {
                        assert(old(self).order_ids@.contains(id) <==> levels_contain_id(pre, id));
                        assert(levels_contain_id(self.list@, id) <==> (levels_contain_id(pre, id)
                            && id != pre[0].list@[0].id));
                    }
                    assert(pre[0].list@.remove(0) =~= pre[0].list@.drop_first());
                    assert(front_removed(pre, self.list@));
                }
            } else {
                proof {
                    assert(self.list@ == pre.remove(0));
                    lemma_wf_after_remove_at(pre, self.list@, 0, 0, self.side, self.desc);
                    assert forall|id: u64|
                        self.order_ids@.contains(id) <==> levels_contain_id(self.list@, id) by {
                        assert(old(self).order_ids@.contains(id) <==> levels_contain_id(pre, id));
                        assert(levels_contain_id(self.list@, id) <==> (levels_contain_id(pre, id)
                            && id != pre[0].list@[0].id));
                    }
                    assert(pre.remove(0) =~= pre.drop_first());
                    assert(front_removed(pre, self.list@));
                }
            }
            Some((maker_id, Dec { units: traded }, maker_price))
        } else {
            let reduced = Order { volumn: Dec { units: maker.volumn.units - traded }, ..maker };
            level.list.insert(0, reduced);
            let ghost lv = level;
            self.list.insert(0, level);
            proof {
                pre[0].list@.drop_first().insert_ensures(0, reduced);
                assert(pre[0].list@.remove(0) =~= pre[0].list@.drop_first());
                assert(lv.list@[0] == reduced);
                assert(lv.list@.len() == pre[0].list@.len());
                assert forall|k: int| 1 <= k < pre[0].list@.len() implies lv.list@[k]
                    == pre[0].list@[k] by {
                    assert(lv.list@[k] == pre[0].list@.drop_first()[k - 1]);
                }
                pre.drop_first().insert_ensures(0, lv);
                assert(pre.remove(0) =~= pre.drop_first());
                assert(self.list@[0] == lv);
                assert forall|k: int| 1 <= k < pre.len() implies self.list@[k] == pre[k] by {
                    assert(self.list@[k] == pre.drop_first()[k - 1]);
                }
                assert(reduced == with_volumn(pre[0].list@[0], (pre[0].list@[0].volumn.units
                    - traded) as u128));
                assert(front_reduced(pre, self.list@, traded));
                lemma_wf_after_front_reduced(pre, self.list@, traded, self.side, self.desc);
                assert forall|id: u64|
                    self.order_ids@.contains(id) <==> levels_contain_id(self.list@, id) by {
                    assert(old(self).order_ids@.contains(id) <==> levels_contain_id(pre, id));
                    assert(levels_contain_id(self.list@, id) <==> levels_contain_id(pre, id));
                }
            }
            Some((maker_id, Dec { units: traded }, maker_price))
        }
    }

    /// Explicit cancellation: removes the order with `order_id` resting at
    /// exactly `price`, if any. The caller must know the order's resting
    /// price; no scan across other prices is made.
    pub fn remove(&mut self, price: Dec, order_id: u64) -> (r: Option<Order>)
        requires
            old(self).wf(),
        ensures
            final(self).wf(),
            final(self).side == old(self).side,
            final(self).desc == old(self).desc,
            match r {
                None => q_unchanged(*old(self), *final(self)) && !has_order_at(
                    old(self).list@,
                    price,
                    order_id,
                ),
                Some(o) => ({
                    &&& o.id == order_id
                    &&& o.price == price
                    &&& has_order_at(old(self).list@, price, order_id)
                    &&& (forall|id: u64|
                        final(self).has_id(id) <==> (old(self).has_id(id) && id != order_id))
                    &&& exists|i: int, j: int|
                        #![trigger removed_at(old(self).list@, final(self).list@, i, j)]
                        removed_at(old(self).list@, final(self).list@, i, j) && old(
                            self,
                        ).list@[i].price == price && old(self).list@[i].list@[j] == o
                }),
            },
    {
        if !self.exists_order_id(order_id) {
            proof {
                assert(!has_order_at(self.list@, price, order_id)) by {
                    if has_order_at(self.list@, price, order_id) {
                        let (a, b) = choose|a: int, b: int|
                            0 <= a < self.list@.len() && 0 <= b < self.list@[a].list@.len()
                                && self.list@[a].price == price && (
                            #[trigger] self.list@[a].list@[b]).id == order_id;
                        assert(levels_contain_id(self.list@, order_id));
                    }
                }
            }
            return None;
        }
        let mut i: usize = 0;
        while i < self.list.len()
            invariant
                old(self).wf(),
                self.side == old(self).side,
                self.desc == old(self).desc,
                self.list@ == old(self).list@,
                self.order_ids@ == old(self).order_ids@,
                i <= self.list@.len(),
                forall|k: int| 0 <= k < i ==> (#[trigger] old(self).list@[k]).price != price,
            decreases self.list@.len() - i,
        {
            let ghost pre = old(self).list@;
            let ii = i;
            if self.list[ii].price.units == price.units {
                proof {
                    assert(pre[ii as int].price == price);
                }
                let mut level = self.list.remove(ii);
                let found = level.remove(order_id);
                match found {
                    Some(o) => {
                        remove_u64(&mut self.order_ids, order_id);
                        let ghost jj = choose|j: int|
                            0 <= j < pre[ii as int].list@.len() && o == pre[ii as int].list@[j]
                                && o.id == order_id && level.list@ == pre[ii as int].list@.remove(j)
                                && (forall|k: int|
                                0 <= k < j ==> (#[trigger] pre[ii as int].list@[k]).id != order_id);
                        if level.list.len() > 0 {
                            let ghost lv = level;
                            self.list.insert(ii, level);
                            proof {
                                let iq = ii as int;
                                pre.remove_ensures(iq);
                                pre.remove(iq).insert_ensures(iq, lv);
                                assert(self.list@[iq] == lv);
                                assert forall|k: int|
                                    0 <= k < pre.len() && k != iq implies self.list@[k]
                                    == pre[k] by {
                                    if k < iq {
                                        assert(self.list@[k] == pre.remove(iq)[k]);
                                    } else {
                                        assert(self.list@[k] == pre.remove(iq)[k - 1]);
                                    }
                                }
                                assert(pre[iq].list@.len() > 1);
                                lemma_wf_after_remove_at(pre, self.list@, iq, jj, self.side,
                                    self.desc);
                                assert forall|id: u64|
                                    self.order_ids@.contains(id) <==> levels_contain_id(
                                        self.list@,
                                        id,
                                    ) by {
                                    assert(old(self).order_ids@.contains(id)
                                        <==> levels_contain_id(pre, id));
                                    assert(levels_contain_id(self.list@, id)
                                        <==> (levels_contain_id(pre, id) && id
                                        != pre[iq].list@[jj].id));
                                }
                                assert(removed_at(pre, self.list@, iq, jj));
                                assert(has_order_at(pre, price, order_id)) by {
                                    assert(pre[iq].price == price && pre[iq].list@[jj].id
                                        == order_id);
                                }
                                assert(o.price == price) by {
                                    assert(level_order_wf(pre[iq].list@[jj], pre[iq].price,
                                        self.side));
                                }
                            }
                            return Some(o);
                        } else {
                            proof {
                                let iq = ii as int;
                                assert(pre[iq].list@.len() == 1);
                                assert(self.list@ == pre.remove(iq));
                                lemma_wf_after_remove_at(pre, self.list@, iq, jj, self.side,
                                    self.desc);
                                assert forall|id: u64|
                                    self.order_ids@.contains(id) <==> levels_contain_id(
                                        self.list@,
                                        id,
                                    ) by {
                                    assert(old(self).order_ids@.contains(id)
                                        <==> levels_contain_id(pre, id));
                                    assert(levels_contain_id(self.list@, id)
                                        <==> (levels_contain_id(pre, id) && id
                                        != pre[iq].list@[jj].id));
                                }
                                assert(removed_at(pre, self.list@, iq, jj));
                                assert(has_order_at(pre, price, order_id)) by {
                                    assert(pre[iq].price == price && pre[iq].list@[jj].id
                                        == order_id);
                                }
                                assert(o.price == price) by {
                                    assert(level_order_wf(pre[iq].list@[jj], pre[iq].price,
                                        self.side));
                                }
                            }
                            return Some(o);
                        }
                    }
                    None => {
                        let ghost lv = level;
                        self.list.insert(ii, level);
                        proof {
                            let iq = ii as int;
                            pre.remove_ensures(iq);
                            pre.remove(iq).insert_ensures(iq, lv);
                            assert(lv == pre[iq]);
                            assert forall|k: int|
                                0 <= k < pre.len() implies self.list@[k] == pre[k] by {
                                if k < iq {
                                    assert(self.list@[k] == pre.remove(iq)[k]);
                                } else if k == iq {
                                    assert(self.list@[k] == lv);
                                } else {
                                    assert(self.list@[k] == pre.remove(iq)[k - 1]);
                                }
                            }
                            assert(self.list@ =~= pre);
                            assert(!has_order_at(pre, price, order_id)) by {
                                if has_order_at(pre, price, order_id) {
                                    let (a, b) = choose|a: int, b: int|
                                        0 <= a < pre.len() && 0 <= b < pre[a].list@.len()
                                            && pre[a].price == price && (
                                        #[trigger] pre[a].list@[b]).id == order_id;
                                    assert(a == iq) by {
                                        if a < iq {
                                            assert(price_before(pre[a].price.units,
                                                pre[iq].price.units, self.desc));
                                        } else if a > iq {
                                            assert(price_before(pre[iq].price.units,
                                                pre[a].price.units, self.desc));
                                        }
                                    }
                                    assert(seq_has_id(pre[iq].list@, order_id));
                                }
                            }
                        }
                        return None;
                    }
                }
            }
            i += 1;
        }
        proof {
            assert(!has_order_at(self.list@, price, order_id)) by {
                if has_order_at(self.list@, price, order_id) {
                    let (a, b) = choose|a: int, b: int|
                        0 <= a < self.list@.len() && 0 <= b < self.list@[a].list@.len()
                            && self.list@[a].price == price && (#[trigger] self.list@[a].list@[b]).id
                            == order_id;
                    assert(self.list@[a].price != price);
                }
            }
        }
        None
    }

    /// Removes `order_id` from the resting-ID set and from `queue`, a level
    /// detached from this side during matching. The level surgery itself is
    /// the caller's responsibility; this only keeps the ID set in step.
    pub fn remove_queue_item(&mut self, queue: &mut OrderQueueItem, order_id: u64) -> (r: bool)
        requires
            old(self).order_ids@.no_duplicates(),
        ensures
            final(self).side == old(self).side,
            final(self).desc == old(self).desc,
            final(self).list@ == old(self).list@,
            r == old(self).has_id(order_id),
            !r ==> q_unchanged(*old(self), *final(self)) && *final(queue) == *old(queue),
            r ==> final(self).order_ids@.no_duplicates() && (forall|id: u64|
                final(self).has_id(id) <==> (old(self).has_id(id) && id != order_id)) && final(
                queue).price == old(queue).price && (!seq_has_id(old(queue).list@, order_id)
                ==> *final(queue) == *old(queue)) && (seq_has_id(old(queue).list@, order_id)
                ==> exists|j: int|
                0 <= j < old(queue).list@.len() && old(queue).list@[j].id == order_id && final(
                queue).list@ == old(queue).list@.remove(j)),
    {
        if !self.exists_order_id(order_id) {
            return false;
        }
        remove_u64(&mut self.order_ids, order_id);
        let found = queue.remove(order_id);
        proof {
            if found is Some {
                let o = found->Some_0;
                let j = choose|j: int|
                    0 <= j < old(queue).list@.len() && o == old(queue).list@[j] && o.id == order_id
                        && queue.list@ == old(queue).list@.remove(j) && (forall|k: int|
                        0 <= k < j ==> (#[trigger] old(queue).list@[k]).id != order_id);
                assert(old(queue).list@[j].id == order_id);
            } else {
                assert(!seq_has_id(old(queue).list@, order_id));
            }
        }
        true
    }
}

// ---------------------------------------------------------------------------
// The flattened view: all resting orders in matching order
// ---------------------------------------------------------------------------

/// The first order of the flattened view is the best level's oldest order.
pub proof fn lemma_flat_first(levels: Seq<OrderQueueItem>)
    requires
        levels.len() > 0,
        levels[0].list@.len() > 0,
    ensures
        flat(levels).len() >= levels[0].list@.len(),
        forall|k: int| 0 <= k < levels[0].list@.len() ==> flat(levels)[k] == levels[0].list@[k],
{
    assert(flat(levels) == levels[0].list@ + flat(levels.drop_first()));
    lemma_flat_len_nonneg(levels.drop_first());
}

proof fn lemma_flat_len_nonneg(levels: Seq<OrderQueueItem>)
    ensures
        flat(levels).len() >= 0,
    decreases levels.len(),
{
}

/// Dropping one side's first level shortens the flattened view accordingly.
pub proof fn lemma_flat_front_removed(pre: Seq<OrderQueueItem>, post: Seq<OrderQueueItem>)
    requires
        pre.len() > 0,
        pre[0].list@.len() > 0,
        front_removed(pre, post),
    ensures
        flat(post) == flat(pre).drop_first(),
{
    assert(flat(pre) == pre[0].list@ + flat(pre.drop_first()));
    if pre[0].list@.len() == 1 {
        assert(flat(pre).drop_first() =~= flat(pre.drop_first()));
    } else {
        assert(flat(post) == post[0].list@ + flat(post.drop_first()));
        assert(post.drop_first() =~= pre.drop_first());
        assert(flat(pre).drop_first() =~= pre[0].list@.drop_first() + flat(pre.drop_first()));
        assert(flat(post) =~= flat(pre).drop_first());
    }
}

/// Reducing the front order's quantity updates one entry of the flattened view.
pub proof fn lemma_flat_front_reduced(
    pre: Seq<OrderQueueItem>,
    post: Seq<OrderQueueItem>,
    traded: u128,
)
    requires
        pre.len() > 0,
        pre[0].list@.len() > 0,
        front_reduced(pre, post, traded),
    ensures
        flat(post) == flat(pre).update(
            0,
            with_volumn(pre[0].list@[0], (pre[0].list@[0].volumn.units - traded) as u128),
        ),
{
    assert(flat(pre) == pre[0].list@ + flat(pre.drop_first()));
    assert(flat(post) == post[0].list@ + flat(post.drop_first()));
    assert(post.drop_first() =~= pre.drop_first());
    assert(post[0].list@ =~= pre[0].list@.update(
        0,
        with_volumn(pre[0].list@[0], (pre[0].list@[0].volumn.units - traded) as u128),
    ));
    assert(flat(post) =~= flat(pre).update(
        0,
        with_volumn(pre[0].list@[0], (pre[0].list@[0].volumn.units - traded) as u128),
    ));
}

/// An ID rests in the levels exactly when it occurs in the flattened view.
pub proof fn lemma_flat_contains_id(levels: Seq<OrderQueueItem>, id: u64)
    ensures
        levels_contain_id(levels, id) <==> seq_has_id(flat(levels), id),
    decreases levels.len(),
{
    if levels.len() > 0 {
        lemma_flat_contains_id(levels.drop_first(), id);
        let f = flat(levels);
        let n0 = levels[0].list@.len() as int;
        assert(f == levels[0].list@ + flat(levels.drop_first()));
        if levels_contain_id(levels, id) {
            let (a, b) = choose|a: int, b: int|
                0 <= a < levels.len() && 0 <= b < levels[a].list@.len() && (
                #[trigger] levels[a].list@[b]).id == id;
            if a == 0 {
                assert(f[b] == levels[0].list@[b]);
                assert(seq_has_id(f, id));
            } else {
                assert(levels.drop_first()[a - 1].list@[b].id == id);
                assert(levels_contain_id(levels.drop_first(), id));
                let k = choose|k: int|
                    0 <= k < flat(levels.drop_first()).len() && (
                    #[trigger] flat(levels.drop_first())[k]).id == id;
                assert(f[n0 + k] == flat(levels.drop_first())[k]);
                assert(seq_has_id(f, id));
            }
        }
        if seq_has_id(f, id) {
            let k = choose|k: int| 0 <= k < f.len() && (#[trigger] f[k]).id == id;
            if k < n0 {
                assert(levels[0].list@[k].id == id);
                assert(levels_contain_id(levels, id));
            } else {
                assert(f[k] == flat(levels.drop_first())[k - n0]);
                assert(seq_has_id(flat(levels.drop_first()), id));
                let (a, b) = choose|a: int, b: int|
                    0 <= a < levels.drop_first().len() && 0 <= b
                        < levels.drop_first()[a].list@.len() && (
                    #[trigger] levels.drop_first()[a].list@[b]).id == id;
                assert(levels[a + 1].list@[b].id == id);
                assert(levels_contain_id(levels, id));
            }
        }
    }
}

/// A well-formed tail of levels is itself well formed.
proof fn lemma_level_seq_wf_drop_first(levels: Seq<OrderQueueItem>, side: OrderSide, desc: bool)
    requires
        level_seq_wf(levels, side, desc),
        levels.len() > 0,
    ensures
        level_seq_wf(levels.drop_first(), side, desc),
{
    let rest = levels.drop_first();
    assert forall|i: int| 0 <= i < rest.len() implies (#[trigger] rest[i]).wf(side) by {
        assert(rest[i] == levels[i + 1]);
    }
    assert forall|i: int, j: int| 0 <= i < j < rest.len() implies price_before(
        (#[trigger] rest[i]).price.units,
        (#[trigger] rest[j]).price.units,
        desc,
    ) by {
        assert(rest[i] == levels[i + 1]);
        assert(rest[j] == levels[j + 1]);
        assert(price_before(levels[i + 1].price.units, levels[j + 1].price.units, desc));
    }
}

/// Price-time priority of a well-formed side: the flattened view is weakly
/// ordered best price first, every order in it is sound for this side, and
/// the orders sharing the best price are exactly its leading level, in FIFO
/// (arrival) order. Matching always consumes this view front first, so the
/// best price always trades before a worse one, and within one price the
/// earliest-resting order trades first.
pub proof fn lemma_price_time_priority(levels: Seq<OrderQueueItem>, side: OrderSide, desc: bool)
    requires
        level_seq_wf(levels, side, desc),
    ensures
        forall|k1: int, k2: int|
            0 <= k1 < k2 < flat(levels).len() ==> price_before_eq(
                (#[trigger] flat(levels)[k1]).price.units,
                (#[trigger] flat(levels)[k2]).price.units,
                desc,
            ),
        forall|k: int|
            0 <= k < flat(levels).len() ==> (#[trigger] flat(levels)[k]).vals_wf() && flat(
                levels,
            )[k].side == side,
        levels.len() > 0 ==> (forall|k: int|
            0 <= k < flat(levels).len() ==> ((k < levels[0].list@.len() <==> (
            #[trigger] flat(levels)[k]).price == levels[0].price) && (k < levels[0].list@.len()
                ==> flat(levels)[k] == levels[0].list@[k]))),
    decreases levels.len(),
{
    if levels.len() > 0 {
        let f = flat(levels);
        let rest = levels.drop_first();
        let n0 = levels[0].list@.len() as int;
        assert(f == levels[0].list@ + flat(rest));
        lemma_level_seq_wf_drop_first(levels, side, desc);
        lemma_price_time_priority(rest, side, desc);
        assert(levels[0].wf(side));
        assert forall|k: int|
            0 <= k < f.len() implies (#[trigger] f[k]).vals_wf() && f[k].side == side && (k < n0
            <==> f[k].price == levels[0].price) && (k < n0 ==> f[k] == levels[0].list@[k]) by {
            if k < n0 {
                assert(f[k] == levels[0].list@[k]);
                assert(level_order_wf(levels[0].list@[k], levels[0].price, side));
            } else {
                assert(f[k] == flat(rest)[k - n0]);
                assert(rest.len() > 0) by {
                    if rest.len() == 0 {
                        assert(flat(rest).len() == 0);
                    }
                }
                assert(rest[0] == levels[1]);
                if flat(rest)[k - n0].price == rest[0].price {
                    assert(price_before(levels[0].price.units, levels[1].price.units, desc));
                } else {
                    let (a, b) = lemma_flat_witness(rest, k - n0);
                    assert(flat(rest)[k - n0].price == rest[a].price);
                    assert(rest[a] == levels[a + 1]);
                    assert(price_before(levels[0].price.units, levels[a + 1].price.units, desc));
                }
            }
        }
        assert forall|k1: int, k2: int| 0 <= k1 < k2 < f.len() implies price_before_eq(
            (#[trigger] f[k1]).price.units,
            (#[trigger] f[k2]).price.units,
            desc,
        ) by {
            if k2 < n0 {
                assert(f[k1].price == levels[0].price && f[k2].price == levels[0].price);
            } else if k1 >= n0 {
                assert(f[k1] == flat(rest)[k1 - n0]);
                assert(f[k2] == flat(rest)[k2 - n0]);
                assert(price_before_eq(flat(rest)[k1 - n0].price.units,
                    flat(rest)[k2 - n0].price.units, desc));
            } else {
                assert(f[k1].price == levels[0].price);
                assert(f[k2] == flat(rest)[k2 - n0]);
                let (a, b) = lemma_flat_witness(rest, k2 - n0);
                assert(flat(rest)[k2 - n0].price == rest[a].price);
                assert(rest[a] == levels[a + 1]);
                assert(price_before(levels[0].price.units, levels[a + 1].price.units, desc));
            }
        }
    }
}

/// Every order of the flattened view lies in some level, at that level's price.
proof fn lemma_flat_witness(levels: Seq<OrderQueueItem>, k: int) -> (r: (int, int))
    requires
        0 <= k < flat(levels).len(),
        forall|i: int|
            0 <= i < levels.len() ==> (forall|j: int|
                0 <= j < (#[trigger] levels[i]).list@.len() ==> (#[trigger] levels[i].list@[j]).price
                    == levels[i].price),
    ensures
        0 <= r.0 < levels.len(),
        0 <= r.1 < levels[r.0].list@.len(),
        flat(levels)[k] == levels[r.0].list@[r.1],
        flat(levels)[k].price == levels[r.0].price,
    decreases levels.len(),
{
    assert(levels.len() > 0) by {
        if levels.len() == 0 {
            assert(flat(levels).len() == 0);
        }
    }
    let n0 = levels[0].list@.len() as int;
    assert(flat(levels) == levels[0].list@ + flat(levels.drop_first()));
    if k < n0 {
        (0, k)
    } else {
        let rest = levels.drop_first();
        assert forall|i: int|
            0 <= i < rest.len() implies (forall|j: int|
            0 <= j < (#[trigger] rest[i]).list@.len() ==> (#[trigger] rest[i].list@[j]).price
                == rest[i].price) by {
            assert(rest[i] == levels[i + 1]);
        }
        let (a, b) = lemma_flat_witness(rest, k - n0);
        assert(rest[a] == levels[a + 1]);
        (a + 1, b)
    }
}

// ---------------------------------------------------------------------------
// Look-ahead for fill-or-kill
// ---------------------------------------------------------------------------

/// Decomposing a quantity sum at the front.
pub proof fn lemma_sum_front(s: Seq<Order>)
    requires
        s.len() > 0,
    ensures
        sum_units(s) == s[0].volumn.units + sum_units(s.drop_first()),
    decreases s.len(),
{
    if s.len() == 1 {
        assert(s.drop_first() =~= Seq::<Order>::empty());
        assert(s.drop_last() =~= Seq::<Order>::empty());
    } else {
        lemma_sum_front(s.drop_last());
        assert(s.drop_last()[0] == s[0]);
        assert(s.drop_last().drop_first() =~= s.drop_first().drop_last());
        assert(s.drop_first().last() == s.last());
    }
}

/// Availability over a flattened view, split after an all-eligible prefix.
proof fn lemma_avail_concat(a: Seq<Order>, b: Seq<Order>, limit: u128, side: OrderSide)
    requires
        forall|k: int| 0 <= k < a.len() ==> eligible((#[trigger] a[k]).price.units, limit, side),
    ensures
        avail_units(a + b, limit, side) == sum_units(a) + avail_units(b, limit, side),
    decreases a.len(),
{
    if a.len() == 0 {
        assert(a + b =~= b);
        assert(sum_units(a) == 0);
    } else {
        assert((a + b)[0] == a[0]);
        assert((a + b).len() > 0);
        assert((a + b).drop_first() =~= a.drop_first() + b);
        assert forall|k: int|
            0 <= k < a.drop_first().len() implies eligible(
            (#[trigger] a.drop_first()[k]).price.units,
            limit,
            side,
        ) by {
            assert(a.drop_first()[k] == a[k + 1]);
        }
        lemma_avail_concat(a.drop_first(), b, limit, side);
        lemma_sum_front(a);
    }
}

proof fn lemma_avail_nonneg(s: Seq<Order>, limit: u128, side: OrderSide)
    ensures
        avail_units(s, limit, side) >= 0,
    decreases s.len(),
{
    if s.len() > 0 && eligible(s[0].price.units, limit, side) {
        lemma_avail_nonneg(s.drop_first(), limit, side);
    }
}

impl OrderQueueItem {
    /// Accumulates this level's quantity onto `acc`, stopping early once
    /// `target` is reached.
    fn add_until(&self, acc: u128, target: u128) -> (r: u128)
        requires
            acc < target,
            target < MAX_UNITS,
            forall|j: int| 0 <= j < self.list@.len() ==> (#[trigger] self.list@[j]).volumn.wf(),
        ensures
            (r >= target) <==> (acc + sum_units(self.list@) >= target),
            r < target ==> r == acc + sum_units(self.list@),
    {
        let mut cur: u128 = acc;
        let mut j: usize = 0;
        proof {
            assert(self.list@.take(0) =~= Seq::<Order>::empty());
        }
        while j < self.list.len() && cur < target
            invariant
                j <= self.list@.len(),
                target < MAX_UNITS,
                forall|k: int| 0 <= k < self.list@.len() ==> (#[trigger] self.list@[k]).volumn.wf(),
                cur == acc + sum_units(self.list@.take(j as int)),
                acc < target,
                cur < target + MAX_UNITS,
            decreases self.list@.len() - j,
        {
            proof {
                lemma_sum_take_succ(self.list@, j as int);
            }
            cur = cur + self.list[j].volumn.units;
            j += 1;
        }
        proof {
            if j == self.list@.len() {
                assert(self.list@.take(j as int) =~= self.list@);
            } else {
                lemma_sum_take_le(self.list@, j as int);
            }
        }
        cur
    }
}

/// Quantity of each level of a sequence, summed.
pub open spec fn levels_sum(levels: Seq<OrderQueueItem>) -> int
    decreases levels.len(),
{
    if levels.len() == 0 {
        0
    } else {
        levels_sum(levels.drop_last()) + sum_units(levels.last().list@)
    }
}

proof fn lemma_levels_sum_take_succ(s: Seq<OrderQueueItem>, i: int)
    requires
        0 <= i < s.len(),
    ensures
        levels_sum(s.take(i + 1)) == levels_sum(s.take(i)) + sum_units(s[i].list@),
{
    assert(s.take(i + 1).drop_last() =~= s.take(i));
    assert(s.take(i + 1).last() == s[i]);
}

/// Availability over a side whose first `i` levels are all eligible splits
/// into those levels' full quantity plus the availability of the rest.
proof fn lemma_avail_split(
    levels: Seq<OrderQueueItem>,
    i: int,
    limit: u128,
    side: OrderSide,
    desc: bool,
)
    requires
        level_seq_wf(levels, side, desc),
        0 <= i <= levels.len(),
        forall|k: int|
            0 <= k < i ==> eligible((#[trigger] levels[k]).price.units, limit, side),
    ensures
        avail_units(flat(levels), limit, side) == levels_sum(levels.take(i)) + avail_units(
            flat(levels.skip(i)),
            limit,
            side,
        ),
    decreases i,
{
    if i == 0 {
        assert(levels.take(0) =~= Seq::<OrderQueueItem>::empty());
        assert(levels.skip(0) =~= levels);
    } else {
        let rest = levels.drop_first();
        lemma_level_seq_wf_drop_first(levels, side, desc);
        assert forall|k: int|
            0 <= k < i - 1 implies eligible((#[trigger] rest[k]).price.units, limit, side) by {
            assert(rest[k] == levels[k + 1]);
        }
        lemma_avail_split(rest, i - 1, limit, side, desc);
        assert(flat(levels) == levels[0].list@ + flat(rest));
        assert(levels[0].wf(side));
        assert forall|k: int|
            0 <= k < levels[0].list@.len() implies eligible(
            (#[trigger] levels[0].list@[k]).price.units,
            limit,
            side,
        ) by {
            assert(level_order_wf(levels[0].list@[k], levels[0].price, side));
        }
        lemma_avail_concat(levels[0].list@, flat(rest), limit, side);
        assert(rest.skip(i - 1) =~= levels.skip(i));
        // levels_sum(take(i)) front decomposition
        lemma_levels_sum_front(levels.take(i));
        assert(levels.take(i)[0] == levels[0]);
        assert(levels.take(i).drop_first() =~= rest.take(i - 1));
    }
}

proof fn lemma_levels_sum_front(s: Seq<OrderQueueItem>)
    requires
        s.len() > 0,
    ensures
        levels_sum(s) == sum_units(s[0].list@) + levels_sum(s.drop_first()),
    decreases s.len(),
{
    if s.len() == 1 {
        assert(s.drop_first() =~= Seq::<OrderQueueItem>::empty());
        assert(s.drop_last() =~= Seq::<OrderQueueItem>::empty());
    } else {
        lemma_levels_sum_front(s.drop_last());
        assert(s.drop_last()[0] == s[0]);
        assert(s.drop_last().drop_first() =~= s.drop_first().drop_last());
        assert(s.drop_first().last() == s.last());
    }
}

proof fn lemma_levels_sum_nonneg(s: Seq<OrderQueueItem>)
    ensures
        levels_sum(s) >= 0,
    decreases s.len(),
{
    if s.len() > 0 {
        lemma_levels_sum_nonneg(s.drop_last());
        lemma_sum_nonneg(s.last().list@);
    }
}

impl OrderQueue {
    /// The fill-or-kill look-ahead: decides, without mutating anything,
    /// whether the quantity resting on this side at prices a taker limited to
    /// `limit` may trade against reaches `target`.
    pub fn fok_available(&self, limit: Dec, target: Dec) -> (r: bool)
        requires
            self.wf(),
            0 < target.units < MAX_UNITS,
        ensures
            r == (avail_units(flat(self.list@), limit.units, self.side) >= target.units),
    {
        let mut acc: u128 = 0;
        let mut i: usize = 0;
        proof {
            assert(self.list@.take(0) =~= Seq::<OrderQueueItem>::empty());
        }
        while i < self.list.len()
            invariant
                self.wf(),
                0 < target.units < MAX_UNITS,
                i <= self.list@.len(),
                acc < target.units,
                forall|k: int|
                    0 <= k < i ==> eligible(
                        (#[trigger] self.list@[k]).price.units,
                        limit.units,
                        self.side,
                    ),
                acc == levels_sum(self.list@.take(i as int)),
            decreases self.list@.len() - i,
        {
            let p: u128 = self.list[i].price.units;
            let elig: bool = match self.side {
                OrderSide::Sell => p <= limit.units,
                OrderSide::Buy => p >= limit.units,
            };
            if !elig {
                proof {
                    lemma_avail_split(self.list@, i as int, limit.units, self.side, self.desc);
                    let rest = self.list@.skip(i as int);
                    assert(rest[0] == self.list@[i as int]);
                    if rest[0].list@.len() > 0 {
                        assert(flat(rest) == rest[0].list@ + flat(rest.drop_first()));
                        assert(flat(rest)[0] == rest[0].list@[0]);
                        assert(level_order_wf(rest[0].list@[0], rest[0].price, self.side)) by {
                            assert(self.list@[i as int].wf(self.side));
                        }
                        assert(avail_units(flat(rest), limit.units, self.side) == 0);
                    }
                }
                return false;
            }
            let ghost pre_acc = acc;
            let r = self.list[i].add_until(acc, target.units);
            proof {
                assert(self.list@[i as int].wf(self.side));
            }
            if r >= target.units {
                proof {
                    lemma_avail_split(self.list@, i as int + 1, limit.units, self.side, self.desc);
                    lemma_levels_sum_take_succ(self.list@, i as int);
                    lemma_avail_nonneg(flat(self.list@.skip(i as int + 1)), limit.units, self.side);
                }
                return true;
            }
            acc = r;
            i += 1;
            proof {
                lemma_levels_sum_take_succ(self.list@, i as int - 1);
            }
        }
        proof {
            assert(self.list@.take(self.list@.len() as int) =~= self.list@);
            lemma_avail_split(self.list@, self.list@.len() as int, limit.units, self.side,
                self.desc);
            assert(self.list@.skip(self.list@.len() as int) =~= Seq::<OrderQueueItem>::empty());
            assert(flat(self.list@.skip(self.list@.len() as int)).len() == 0);
        }
        false
    }
}

/// Counting the `i`-th level extends the count of the first `i`.
proof fn lemma_total_take_succ(s: Seq<OrderQueueItem>, i: int)
    requires
        0 <= i < s.len(),
    ensures
        total_orders(s.take(i + 1)) == total_orders(s.take(i)) + s[i].list@.len(),
{
    assert(s.take(i + 1).drop_last() =~= s.take(i));
    assert(s.take(i + 1).last() == s[i]);
}

/// Level counts are non-negative, so a prefix count never exceeds the total.
proof fn lemma_total_take_le(s: Seq<OrderQueueItem>, i: int)
    requires
        0 <= i <= s.len(),
    ensures
        total_orders(s.take(i)) <= total_orders(s),
        total_orders(s.take(i)) >= 0,
    decreases s.len(),
{
    if i == s.len() {
        assert(s.take(i) =~= s);
        lemma_total_orders_nonneg(s);
    } else {
        lemma_total_take_le(s.drop_last(), i);
        assert(s.drop_last().take(i) =~= s.take(i));
    }
}

pub proof fn lemma_total_orders_nonneg(s: Seq<OrderQueueItem>)
    ensures
        total_orders(s) >= 0,
    decreases s.len(),
{
    if s.len() > 0 {
        lemma_total_orders_nonneg(s.drop_last());
    }
}

} // verus!
