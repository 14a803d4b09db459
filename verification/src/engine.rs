use vstd::prelude::*;
use crate::decimal::Dec;
use crate::order::{Order, OrderSide, OrderError};
use crate::order_book::OrderBook;
use crate::order_queue::total_orders;
use crate::queue::ResultQueue;

verus! {

/// A book that was just registered: right symbol, both sides empty.
pub open spec fn fresh_book<R: ResultQueue>(b: OrderBook<R>, sym: Seq<char>) -> bool {
    &&& b.symbol@ == sym
    &&& b.buy_queue.list@.len() == 0
    &&& b.sell_queue.list@.len() == 0
    &&& b.buy_queue.order_ids@.len() == 0
    &&& b.sell_queue.order_ids@.len() == 0
}

/// Resting buy orders over a set of books.
pub open spec fn total_buys<R: ResultQueue>(books: Seq<OrderBook<R>>) -> int
    decreases books.len(),
{
    if books.len() == 0 {
        0
    } else {
        total_buys(books.drop_last()) + total_orders(books.last().buy_queue.list@)
    }
}

/// Resting sell orders over a set of books.
pub open spec fn total_sells<R: ResultQueue>(books: Seq<OrderBook<R>>) -> int
    decreases books.len(),
{
    if books.len() == 0 {
        0
    } else {
        total_sells(books.drop_last()) + total_orders(books.last().sell_queue.list@)
    }
}

/// The registry of order books, one per traded symbol. Every mutation of a
/// book's state goes through `add_order` / `cancel_order`, which route by
/// the order's symbol.
pub struct Engine<R: ResultQueue> {
    pub order_books: Vec<OrderBook<R>>,
}

impl<R: ResultQueue> Engine<R> {
    /// Every registered book is well formed and symbols are unique.
    pub open spec fn wf(self) -> bool {
        &&& forall|i: int|
            0 <= i < self.order_books@.len() ==> (#[trigger] self.order_books@[i]).wf()
        &&& forall|i: int, j: int|
            0 <= i < j < self.order_books@.len() ==> (#[trigger] self.order_books@[i]).symbol@ != (
            #[trigger] self.order_books@[j]).symbol@
    }

    /// A book is registered for this symbol.
    pub open spec fn has_book(self, sym: Seq<char>) -> bool {
        exists|i: int|
            0 <= i < self.order_books@.len() && (#[trigger] self.order_books@[i]).symbol@ == sym
    }

    pub fn new() -> (r: Engine<R>)
        ensures
            r.wf(),
            r.order_books@.len() == 0,
    {
        Engine { order_books: Vec::new() }
    }

    /// Registers an empty book for `symbol` with an optional sink, replacing
    /// any book already registered under that symbol. Administrative: not
    /// meant to race with trading on the symbol.
    pub fn add_book(&mut self, symbol: &str, result_queue: Option<R>)
        requires
            old(self).wf(),
        ensures
            final(self).wf(),
            ({
                let pre = old(self).order_books@;
                let post = final(self).order_books@;
                if old(self).has_book(symbol@) {
                    exists|i: int|
                        0 <= i < pre.len() && (#[trigger] pre[i]).symbol@ == symbol@ && post.len()
                            == pre.len() && fresh_book(post[i], symbol@) && (forall|k: int|
                            0 <= k < pre.len() && k != i ==> post[k] == pre[k])
                } else {
                    post.len() == pre.len() + 1 && fresh_book(post[pre.len() as int], symbol@) && (
                    forall|k: int| 0 <= k < pre.len() ==> post[k] == pre[k])
                }
            }),
    {
        let book = OrderBook::new(symbol.to_owned(), result_queue);
        let ghost pre = old(self).order_books@;
        let mut i: usize = 0;
        while i < self.order_books.len()
            invariant
                old(self).wf(),
                self.order_books@ == pre,
                pre == old(self).order_books@,
                i <= pre.len(),
                book.symbol@ == symbol@,
                fresh_book(book, symbol@),
                book.wf(),
                forall|k: int| 0 <= k < i ==> (#[trigger] pre[k]).symbol@ != symbol@,
            decreases pre.len() - i,
        {
            let same: bool = self.order_books[i].symbol == book.symbol;
            if same {
                let ghost bk = book;
                self.order_books.remove(i);
                self.order_books.insert(i, book);
                proof {
                    let iq = i as int;
                    pre.remove_ensures(iq);
                    pre.remove(iq).insert_ensures(iq, bk);
                    assert(self.order_books@[iq] == bk);
                    assert forall|k: int|
                        0 <= k < pre.len() && k != iq implies self.order_books@[k] == pre[k] by {
                        if k < iq {
                            assert(self.order_books@[k] == pre.remove(iq)[k]);
                        } else {
                            assert(self.order_books@[k] == pre.remove(iq)[k - 1]);
                        }
                    }
                    assert(pre[iq].symbol@ == symbol@);
                    assert forall|a: int, b: int|
                        0 <= a < b < self.order_books@.len() implies (
                    #[trigger] self.order_books@[a]).symbol@ != (
                    #[trigger] self.order_books@[b]).symbol@ by {
                        assert(self.order_books@[a].symbol@ == pre[a].symbol@);
                        assert(self.order_books@[b].symbol@ == pre[b].symbol@);
                    }
                }
                return ;
            }
            i += 1;
        }
        let ghost bk = book;
        self.order_books.push(book);
        proof {
            assert(self.order_books@ == pre.push(bk));
            assert(self.order_books@[pre.len() as int] == bk);
            assert forall|k: int| 0 <= k < pre.len() implies self.order_books@[k] == pre[k] by {}
            assert(!old(self).has_book(symbol@)) by {
                if old(self).has_book(symbol@) {
                    let w = choose|w: int|
                        0 <= w < pre.len() && (#[trigger] pre[w]).symbol@ == symbol@;
                    assert(pre[w].symbol@ != symbol@);
                }
            }
            assert forall|a: int, b: int|
                0 <= a < b < self.order_books@.len() implies (
            #[trigger] self.order_books@[a]).symbol@ != (#[trigger] self.order_books@[b]).symbol@ by {
                if b < pre.len() {
                    assert(self.order_books@[a].symbol@ == pre[a].symbol@);
                    assert(self.order_books@[b].symbol@ == pre[b].symbol@);
                } else {
                    assert(self.order_books@[b] == bk);
                    assert(self.order_books@[a].symbol@ == pre[a].symbol@);
                    assert(pre[a].symbol@ != symbol@);
                }
            }
        }
    }

    /// Routes a new order to the book registered for its symbol; fails with
    /// `SymbolNotFound` (and no effect) when there is none.
    pub fn add_order(&mut self, order: Order) -> (r: Result<bool, OrderError>)
        requires
            old(self).wf(),
            order.vals_wf(),
        ensures
            final(self).wf(),
            !old(self).has_book(order.symbol@) ==> r == Err::<bool, OrderError>(
                OrderError::SymbolNotFound,
            ) && final(self).order_books@ == old(self).order_books@,
            old(self).has_book(order.symbol@) ==> exists|i: int|
                0 <= i < old(self).order_books@.len()
                    && (#[trigger] old(self).order_books@[i]).symbol@ == order.symbol@
                    && final(self).order_books@.len() == old(self).order_books@.len()
                    && (forall|k: int|
                        0 <= k < old(self).order_books@.len() && k != i
                        ==> final(self).order_books@[k] == old(self).order_books@[k])
                    && old(self).order_books@[i].frame(final(self).order_books@[i])
                    && old(self).order_books@[i].add_outcome(final(self).order_books@[i], order, r),
    {
        let ghost pre = old(self).order_books@;
        let mut i: usize = 0;
        while i < self.order_books.len()
            invariant
                old(self).wf(),
                order.vals_wf(),
                self.order_books@ == pre,
                pre == old(self).order_books@,
                i <= pre.len(),
                forall|k: int| 0 <= k < i ==> (#[trigger] pre[k]).symbol@ != order.symbol@,
            decreases pre.len() - i,
        {
            let same: bool = self.order_books[i].symbol == order.symbol;
            if same {
                let ghost iq = i as int;
                let b = vec_index_mut(&mut self.order_books, i);
                let r = b.add_order(order);
                proof {
                    assert(self.order_books@ == pre.update(iq, self.order_books@[iq]));
                    assert forall|k: int|
                        0 <= k < pre.len() && k != iq implies self.order_books@[k] == pre[k] by {}
                    assert forall|a: int, b2: int|
                        0 <= a < b2 < self.order_books@.len() implies (
                    #[trigger] self.order_books@[a]).symbol@ != (
                    #[trigger] self.order_books@[b2]).symbol@ by {
                        assert(self.order_books@[a].symbol@ == pre[a].symbol@);
                        assert(self.order_books@[b2].symbol@ == pre[b2].symbol@);
                    }
                }
                return r;
            }
            i += 1;
        }
        proof {
            assert(!old(self).has_book(order.symbol@)) by {
                if old(self).has_book(order.symbol@) {
                    let w = choose|w: int|
                        0 <= w < pre.len() && (#[trigger] pre[w]).symbol@ == order.symbol@;
                    assert(pre[w].symbol@ != order.symbol@);
                }
            }
        }
        Err(OrderError::SymbolNotFound)
    }

    /// Routes an explicit cancellation to the book for `symbol`; yields
    /// nothing when the symbol is unknown.
    pub fn cancel_order(&mut self, symbol: &str, order_id: u64, price: Dec, side: OrderSide) -> (r:
        Option<Order>)
        requires
            old(self).wf(),
        ensures
            final(self).wf(),
            !old(self).has_book(symbol@) ==> r == None::<Order> && final(self).order_books@ == old(
                self,
            ).order_books@,
            old(self).has_book(symbol@) ==> exists|i: int|
                0 <= i < old(self).order_books@.len()
                    && (#[trigger] old(self).order_books@[i]).symbol@ == symbol@
                    && final(self).order_books@.len() == old(self).order_books@.len()
                    && (forall|k: int|
                        0 <= k < old(self).order_books@.len() && k != i
                        ==> final(self).order_books@[k] == old(self).order_books@[k])
                    && old(self).order_books@[i].frame(final(self).order_books@[i])
                    && old(self).order_books@[i].cancel_outcome(final(self).order_books@[i],
                        order_id, price, side, r),
    {
        let ghost pre = old(self).order_books@;
        let sym = symbol.to_owned();
        let mut i: usize = 0;
        while i < self.order_books.len()
            invariant
                old(self).wf(),
                self.order_books@ == pre,
                pre == old(self).order_books@,
                sym@ == symbol@,
                i <= pre.len(),
                forall|k: int| 0 <= k < i ==> (#[trigger] pre[k]).symbol@ != symbol@,
            decreases pre.len() - i,
        {
            let same: bool = self.order_books[i].symbol == sym;
            if same {
                let ghost iq = i as int;
                let b = vec_index_mut(&mut self.order_books, i);
                let r = b.calcen_order(order_id, price, side);
                proof {
                    assert(self.order_books@ == pre.update(iq, self.order_books@[iq]));
                    assert forall|k: int|
                        0 <= k < pre.len() && k != iq implies self.order_books@[k] == pre[k] by {}
                    assert forall|a: int, b2: int|
                        0 <= a < b2 < self.order_books@.len() implies (
                    #[trigger] self.order_books@[a]).symbol@ != (
                    #[trigger] self.order_books@[b2]).symbol@ by {
                        assert(self.order_books@[a].symbol@ == pre[a].symbol@);
                        assert(self.order_books@[b2].symbol@ == pre[b2].symbol@);
                    }
                }
                return r;
            }
            i += 1;
        }
        proof {
            assert(!old(self).has_book(symbol@)) by {
                if old(self).has_book(symbol@) {
                    let w = choose|w: int|
                        0 <= w < pre.len() && (#[trigger] pre[w]).symbol@ == symbol@;
                    assert(pre[w].symbol@ != symbol@);
                }
            }
        }
        None
    }

    /// Read-only diagnostic: total resting buy and sell orders over all
    /// books.
    pub fn len(&self) -> (r: (usize, usize))
        requires
            total_buys(self.order_books@) <= usize::MAX,
            total_sells(self.order_books@) <= usize::MAX,
        ensures
            r.0 == total_buys(self.order_books@),
            r.1 == total_sells(self.order_books@),
    {
        let ghost s = self.order_books@;
        let mut buy: usize = 0;
        let mut sell: usize = 0;
        let mut i: usize = 0;
        proof {
            assert(s.take(0) =~= Seq::<OrderBook<R>>::empty());
        }
        while i < self.order_books.len()
            invariant
                s == self.order_books@,
                i <= s.len(),
                total_buys(s) <= usize::MAX,
                total_sells(s) <= usize::MAX,
                buy == total_buys(s.take(i as int)),
                sell == total_sells(s.take(i as int)),
            decreases s.len() - i,
        {
            proof {
                lemma_totals_take_succ(s, i as int);
                lemma_totals_take_le(s, i as int + 1);
                lemma_totals_take_le(s, i as int);
            }
            buy = buy + self.order_books[i].buy_queue.len();
            sell = sell + self.order_books[i].sell_queue.len();
            i += 1;
        }
        proof {
            assert(s.take(s.len() as int) =~= s);
        }
        (buy, sell)
    }
}

/// A mutable borrow of one element, the rest of the vector untouched.
fn vec_index_mut<T>(v: &mut Vec<T>, i: usize) -> (element: &mut T)
    requires
        i < old(v)@.len(),
    ensures
        *element == old(v)@[i as int],
        final(v)@ == old(v)@.update(i as int, *final(element)),
{
    &mut v[i]
}

proof fn lemma_totals_take_succ<R: ResultQueue>(s: Seq<OrderBook<R>>, i: int)
    requires
        0 <= i < s.len(),
    ensures
        total_buys(s.take(i + 1)) == total_buys(s.take(i)) + total_orders(s[i].buy_queue.list@),
        total_sells(s.take(i + 1)) == total_sells(s.take(i)) + total_orders(s[i].sell_queue.list@),
{
    assert(s.take(i + 1).drop_last() =~= s.take(i));
    assert(s.take(i + 1).last() == s[i]);
}

proof fn lemma_totals_take_le<R: ResultQueue>(s: Seq<OrderBook<R>>, i: int)
    requires
        0 <= i <= s.len(),
    ensures
        total_buys(s.take(i)) <= total_buys(s),
        total_sells(s.take(i)) <= total_sells(s),
        total_buys(s.take(i)) >= 0,
        total_sells(s.take(i)) >= 0,
    decreases s.len(),
{
    if i == s.len() {
        assert(s.take(i) =~= s);
        lemma_totals_nonneg(s);
    } else {
        lemma_totals_take_le(s.drop_last(), i);
        assert(s.drop_last().take(i) =~= s.take(i));
        crate::order_queue::lemma_total_orders_nonneg(s.last().buy_queue.list@);
        crate::order_queue::lemma_total_orders_nonneg(s.last().sell_queue.list@);
    }
}

proof fn lemma_totals_nonneg<R: ResultQueue>(s: Seq<OrderBook<R>>)
    ensures
        total_buys(s) >= 0,
        total_sells(s) >= 0,
    decreases s.len(),
{
    if s.len() > 0 {
        lemma_totals_nonneg(s.drop_last());
        crate::order_queue::lemma_total_orders_nonneg(s.last().buy_queue.list@);
        crate::order_queue::lemma_total_orders_nonneg(s.last().sell_queue.list@);
    }
}

} // verus!
