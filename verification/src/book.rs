//! The order book store and the matching algorithm.
//!
//! Each side of the book is a vector of price levels kept strictly sorted by
//! price (ascending), and each level holds its resting entries oldest first.
//! `add_order` inserts an incoming order at its price level; `match_orders`
//! performs one matching pass: if the best (highest) buy price is at least the
//! best (lowest) sell price, the two oldest entries at those prices trade.

use vstd::prelude::*;

use crate::num::U256;
use crate::order::{EntryV, MatchResult, MatchV, Order, OrderBookEntry, OrderType};

verus! {

/// All resting entries at one price on one side, oldest first.
#[derive(Clone, Debug)]
pub struct PriceLevel {
    pub price: U256,
    pub entries: Vec<OrderBookEntry>,
}

/// The mathematical view of a `PriceLevel`.
#[verifier::ext_equal]
pub ghost struct LevelV {
    pub price: int,
    pub entries: Seq<EntryV>,
}

impl View for PriceLevel {
    type V = LevelV;

    open spec fn view(&self) -> LevelV {
        LevelV { price: self.price.val(), entries: self.entries@.map_values(|e: OrderBookEntry| e@) }
    }
}

/// The matching engine's entire mutable state: the two sides of the book.
#[derive(Clone, Debug)]
pub struct OrderBook {
    pub buy_levels: Vec<PriceLevel>,
    pub sell_levels: Vec<PriceLevel>,
}

/// The mathematical view of an `OrderBook`.
#[verifier::ext_equal]
pub ghost struct BookV {
    pub buys: Seq<LevelV>,
    pub sells: Seq<LevelV>,
}

/// The view of one side: a sequence of level views.
pub open spec fn side_view(ls: Seq<PriceLevel>) -> Seq<LevelV> {
    ls.map_values(|l: PriceLevel| l@)
}

impl View for OrderBook {
    type V = BookV;

    open spec fn view(&self) -> BookV {
        BookV { buys: side_view(self.buy_levels@), sells: side_view(self.sell_levels@) }
    }
}

/// Well-formedness of one side: levels strictly sorted by price, and no level
/// with an empty queue is ever retained.
pub open spec fn side_wf(ls: Seq<LevelV>) -> bool {
    &&& forall|i: int, j: int| 0 <= i < j < ls.len() ==> #[trigger] ls[i].price < #[trigger] ls[j].price
    &&& forall|i: int| 0 <= i < ls.len() ==> #[trigger] ls[i].entries.len() > 0
}

/// The canonical shape of one side after a new entry is filed under price `p`:
/// appended to the back of the existing queue at `p`, or a fresh level placed
/// at its sorted position.
pub open spec fn side_add(ls: Seq<LevelV>, p: int, e: EntryV) -> Seq<LevelV>
    decreases ls.len(),
{
    if ls.len() == 0 {
        seq![LevelV { price: p, entries: seq![e] }]
    } else if p < ls[0].price {
        seq![LevelV { price: p, entries: seq![e] }] + ls
    } else if p == ls[0].price {
        ls.update(0, LevelV { price: p, entries: ls[0].entries.push(e) })
    } else {
        seq![ls[0]] + side_add(ls.drop_first(), p, e)
    }
}

/// A level after its head entry trades quantity `m`: the head is decremented,
/// and removed once nothing of it remains.
pub open spec fn level_after_trade(l: LevelV, m: int) -> LevelV {
    if l.entries[0].remaining == m {
        LevelV { price: l.price, entries: l.entries.drop_first() }
    } else {
        LevelV {
            price: l.price,
            entries: l.entries.update(
                0,
                EntryV { order: l.entries[0].order, remaining: l.entries[0].remaining - m },
            ),
        }
    }
}

/// One side after its level at index `i` trades `m` at the head; the level is
/// deleted once its queue is empty.
pub open spec fn side_after_trade(ls: Seq<LevelV>, i: int, m: int) -> Seq<LevelV> {
    let l2 = level_after_trade(ls[i], m);
    if l2.entries.len() == 0 {
        ls.remove(i)
    } else {
        ls.update(i, l2)
    }
}

impl BookV {
    pub open spec fn wf(self) -> bool {
        side_wf(self.buys) && side_wf(self.sells)
    }

    pub open spec fn empty() -> BookV {
        BookV { buys: Seq::empty(), sells: Seq::empty() }
    }

    /// The highest resting buy price (meaningful only when the side is nonempty).
    pub open spec fn best_buy_price(self) -> int {
        self.buys.last().price
    }

    /// The lowest resting sell price (meaningful only when the side is nonempty).
    pub open spec fn best_sell_price(self) -> int {
        self.sells[0].price
    }

    /// The oldest entry at the best buy price.
    pub open spec fn buy_head(self) -> EntryV {
        self.buys.last().entries[0]
    }

    /// The oldest entry at the best sell price.
    pub open spec fn sell_head(self) -> EntryV {
        self.sells[0].entries[0]
    }

    /// The book crosses: both sides rest, and the best bid reaches the best ask.
    pub open spec fn crossed(self) -> bool {
        self.buys.len() > 0 && self.sells.len() > 0 && self.best_buy_price()
            >= self.best_sell_price()
    }

    /// The quantity a matching pass would trade.
    pub open spec fn match_amount(self) -> int {
        if self.buy_head().remaining <= self.sell_head().remaining {
            self.buy_head().remaining
        } else {
            self.sell_head().remaining
        }
    }

    /// A matching pass records a trade: the book crosses and the traded
    /// quantity is positive.
    pub open spec fn matched(self) -> bool {
        self.crossed() && self.match_amount() > 0
    }

    /// The trade a matching pass records, priced at the resting sell side.
    pub open spec fn the_match(self) -> MatchV {
        MatchV {
            buy_order_id: self.buy_head().order.id as int,
            sell_order_id: self.sell_head().order.id as int,
            match_amount: self.match_amount(),
            match_price: self.best_sell_price(),
        }
    }

    /// The book after a successful matching pass.
    pub open spec fn after_match(self) -> BookV {
        BookV {
            buys: side_after_trade(self.buys, self.buys.len() - 1, self.match_amount()),
            sells: side_after_trade(self.sells, 0, self.match_amount()),
        }
    }

    /// The book after an order is added: unchanged when nothing of the order
    /// remains unfilled, otherwise the remainder is filed on the order's side.
    pub open spec fn after_add(self, o: crate::order::OrderV) -> BookV {
        if o.amount <= o.filled_amount {
            self
        } else {
            let e = EntryV { order: o, remaining: o.amount - o.filled_amount };
            match o.order_type {
                OrderType::Buy => BookV { buys: side_add(self.buys, o.price, e), sells: self.sells },
                OrderType::Sell => BookV {
                    buys: self.buys,
                    sells: side_add(self.sells, o.price, e),
                },
            }
        }
    }
}

/// `side_add` at the insertion index: when a level with price `p` stands at
/// `i`, the entry is appended to it; otherwise a fresh level enters at `i`.
proof fn lemma_side_add_at(ls: Seq<LevelV>, p: int, e: EntryV, i: int)
    requires
        side_wf(ls),
        0 <= i <= ls.len(),
        forall|k: int| 0 <= k < i ==> #[trigger] ls[k].price < p,
        i < ls.len() ==> ls[i].price >= p,
    ensures
        side_add(ls, p, e) == if i < ls.len() && ls[i].price == p {
            ls.update(i, LevelV { price: p, entries: ls[i].entries.push(e) })
        } else {
            ls.insert(i, LevelV { price: p, entries: seq![e] })
        },
    decreases ls.len(),
{
    let fresh = LevelV { price: p, entries: seq![e] };
    if ls.len() == 0 {
        assert(side_add(ls, p, e) =~= ls.insert(0, fresh));
    } else if i == 0 {
        if ls[0].price == p {
            assert(side_add(ls, p, e) == ls.update(0, LevelV { price: p, entries: ls[0].entries.push(e) }));
        } else {
            assert(p < ls[0].price);
            assert(side_add(ls, p, e) =~= ls.insert(0, fresh));
        }
    } else {
        assert(ls[0].price < p);
        let tail = ls.drop_first();
        assert forall|a: int, b: int|
            0 <= a < b < tail.len() implies #[trigger] tail[a].price < #[trigger] tail[b].price by {
            assert(tail[a] == ls[a + 1]);
            assert(tail[b] == ls[b + 1]);
        }
        assert forall|a: int| 0 <= a < tail.len() implies #[trigger] tail[a].entries.len() > 0 by {
            assert(tail[a] == ls[a + 1]);
        }
        assert forall|k: int| 0 <= k < i - 1 implies #[trigger] tail[k].price < p by {
            assert(tail[k] == ls[k + 1]);
        }
        lemma_side_add_at(tail, p, e, i - 1);
        if i < ls.len() && ls[i].price == p {
            assert(tail[i - 1].price == p);
            assert(seq![ls[0]] + tail.update(i - 1, LevelV { price: p, entries: tail[i - 1].entries.push(e) })
                =~= ls.update(i, LevelV { price: p, entries: ls[i].entries.push(e) }));
        } else {
            assert(seq![ls[0]] + tail.insert(i - 1, fresh) =~= ls.insert(i, fresh));
        }
    }
}

/// Insertion keeps a side well-formed.
pub(crate) proof fn lemma_side_add_wf(ls: Seq<LevelV>, p: int, e: EntryV, i: int)
    requires
        side_wf(ls),
        0 <= i <= ls.len(),
        forall|k: int| 0 <= k < i ==> #[trigger] ls[k].price < p,
        i < ls.len() ==> ls[i].price >= p,
    ensures
        side_wf(side_add(ls, p, e)),
{
    lemma_side_add_at(ls, p, e, i);
    if i < ls.len() && ls[i].price == p {
        let r = ls.update(i, LevelV { price: p, entries: ls[i].entries.push(e) });
        assert(forall|a: int, b: int|
            0 <= a < b < r.len() ==> #[trigger] r[a].price < #[trigger] r[b].price);
        assert(forall|a: int| 0 <= a < r.len() ==> #[trigger] r[a].entries.len() > 0);
    } else {
        let r = ls.insert(i, LevelV { price: p, entries: seq![e] });
        assert(forall|a: int, b: int|
            0 <= a < b < r.len() ==> #[trigger] r[a].price < #[trigger] r[b].price) by {
            assert(forall|a: int| 0 <= a < r.len() ==> #[trigger] r[a] == if a < i {
                ls[a]
            } else if a == i {
                LevelV { price: p, entries: seq![e] }
            } else {
                ls[a - 1]
            });
        }
        assert(forall|a: int| 0 <= a < r.len() ==> #[trigger] r[a].entries.len() > 0) by {
            assert(forall|a: int| 0 <= a < r.len() ==> #[trigger] r[a] == if a < i {
                ls[a]
            } else if a == i {
                LevelV { price: p, entries: seq![e] }
            } else {
                ls[a - 1]
            });
        }
    }
}

/// File `entry` on one (sorted) side under its order's price.
fn side_insert(levels: &mut Vec<PriceLevel>, entry: OrderBookEntry)
    requires
        side_wf(side_view(old(levels)@)),
    ensures
        side_view(final(levels)@) == side_add(
            side_view(old(levels)@),
            entry.order.price.val(),
            entry@,
        ),
        side_wf(side_view(final(levels)@)),
{
    let price = entry.order.price;
    let ghost ls = side_view(levels@);
    let ghost p = price.val();
    let n = levels.len();
    let mut i: usize = 0;
    #[verifier::loop_isolation(false)]
    while i < n && levels[i].price.lt(&price)
        invariant
            0 <= i <= n,
            forall|k: int| 0 <= k < i ==> #[trigger] ls[k].price < p,
        decreases n - i,
    {
        assert(ls[i as int] == levels@[i as int]@);
        i += 1;
    }
    assert(i < n ==> ls[i as int] == levels@[i as int]@);
    assert(i < n ==> ls[i as int].price >= p);
    proof {
        lemma_side_add_at(ls, p, entry@, i as int);
        lemma_side_add_wf(ls, p, entry@, i as int);
    }
    if i < n && levels[i].price.eq_val(&price) {
        assert(ls[i as int] == levels@[i as int]@);
        let lvl = &mut levels[i];
        lvl.entries.push(entry);
        assert(side_view(levels@) =~~= ls.update(
            i as int,
            LevelV { price: p, entries: ls[i as int].entries.push(entry@) },
        ));
    } else {
        let mut fresh_entries: Vec<OrderBookEntry> = Vec::new();
        fresh_entries.push(entry);
        let ghost e = entry@;
        levels.insert(i, PriceLevel { price, entries: fresh_entries });
        assert(fresh_entries@.map_values(|x: OrderBookEntry| x@) =~= seq![e]);
        assert(side_view(levels@) =~~= ls.insert(i as int, LevelV { price: p, entries: seq![e] }));
    }
}

impl OrderBook {
    /// A book with no resting liquidity on either side.
    pub fn new() -> (r: OrderBook)
        ensures
            r@ == BookV::empty(),
            r@.wf(),
    {
        let r = OrderBook { buy_levels: Vec::new(), sell_levels: Vec::new() };
        proof {
            assert(r@.buys =~= Seq::<LevelV>::empty());
            assert(r@.sells =~= Seq::<LevelV>::empty());
        }
        r
    }

    /// Insert an order.  The unfilled remainder (clamped at zero should the
    /// filled amount exceed the total) is filed at the order's price level on
    /// its side; an order with nothing left to fill leaves the book unchanged.
    pub fn add_order(&mut self, order: Order)
        requires
            old(self)@.wf(),
        ensures
            final(self)@ == old(self)@.after_add(order@),
            final(self)@.wf(),
    {
        let remaining = order.amount.saturating_sub(&order.filled_amount);
        if remaining.is_zero() {
            return ;
        }
        let is_buy = match order.order_type {
            OrderType::Buy => true,
            OrderType::Sell => false,
        };
        let entry = OrderBookEntry { order, remaining_amount: remaining };
        if is_buy {
            side_insert(&mut self.buy_levels, entry);
        } else {
            side_insert(&mut self.sell_levels, entry);
        }
    }

    /// One matching pass.  When the best bid reaches the best ask and the two
    /// head entries can trade a positive quantity, exactly one trade is
    /// recorded at the resting sell price, both heads are decremented, and
    /// exhausted entries and empty levels are removed; otherwise the book is
    /// left untouched and no trade is recorded.
    pub fn match_orders(&mut self) -> (r: Vec<MatchResult>)
        requires
            old(self)@.wf(),
        ensures
            final(self)@.wf(),
            old(self)@.matched() ==> r@.len() == 1 && r@[0]@ == old(self)@.the_match()
                && final(self)@ == old(self)@.after_match(),
            !old(self)@.matched() ==> r@.len() == 0 && final(self)@ == old(self)@,
    {
        let mut matches: Vec<MatchResult> = Vec::new();
        let nb = self.buy_levels.len();
        if nb == 0 || self.sell_levels.len() == 0 {
            return matches;
        }
        let buy_price = self.buy_levels[nb - 1].price;
        let sell_price = self.sell_levels[0].price;
        if buy_price.lt(&sell_price) {
            return matches;
        }
        let ghost b0 = self@;
        proof {
            assert(b0.buys[nb - 1] == self.buy_levels@[nb - 1]@);
            assert(b0.buys[nb - 1].entries.len() > 0);
            assert(b0.sells[0] == self.sell_levels@[0]@);
            assert(b0.sells[0].entries.len() > 0);
        }
        let buy_rem = self.buy_levels[nb - 1].entries[0].remaining_amount;
        let sell_rem = self.sell_levels[0].entries[0].remaining_amount;
        let m = U256::min(buy_rem, sell_rem);
        if m.is_zero() {
            return matches;
        }
        let buy_id = self.buy_levels[nb - 1].entries[0].order.id;
        let sell_id = self.sell_levels[0].entries[0].order.id;
        matches.push(
            MatchResult {
                buy_order_id: U256::from_u64(buy_id),
                sell_order_id: U256::from_u64(sell_id),
                match_amount: m,
                match_price: sell_price,
            },
        );
        // Consume from the oldest entry at the best buy price.
        let mut blevel = self.buy_levels.pop().unwrap();
        let mut bhead = blevel.entries.remove(0);
        bhead.remaining_amount = bhead.remaining_amount.sub(&m);
        if !bhead.remaining_amount.is_zero() {
            blevel.entries.insert(0, bhead);
        }
        assert(blevel@ == level_after_trade(b0.buys.last(), m.val())) by {
            assert(blevel@.entries =~= level_after_trade(b0.buys.last(), m.val()).entries);
        }
        if blevel.entries.len() > 0 {
            self.buy_levels.push(blevel);
            assert(self@.buys =~= side_after_trade(b0.buys, b0.buys.len() - 1, m.val()));
        } else {
            assert(self@.buys =~= side_after_trade(b0.buys, b0.buys.len() - 1, m.val()));
        }
        // Consume from the oldest entry at the best sell price.
        let mut slevel = self.sell_levels.remove(0);
        let mut shead = slevel.entries.remove(0);
        shead.remaining_amount = shead.remaining_amount.sub(&m);
        if !shead.remaining_amount.is_zero() {
            slevel.entries.insert(0, shead);
        }
        assert(slevel@ == level_after_trade(b0.sells[0], m.val())) by {
            assert(slevel@.entries =~= level_after_trade(b0.sells[0], m.val()).entries);
        }
        if slevel.entries.len() > 0 {
            self.sell_levels.insert(0, slevel);
            assert(self@.sells =~= side_after_trade(b0.sells, 0, m.val()));
        } else {
            assert(self@.sells =~= side_after_trade(b0.sells, 0, m.val()));
        }
        proof {
            lemma_side_after_trade_wf(b0.buys, b0.buys.len() - 1, m.val());
            lemma_side_after_trade_wf(b0.sells, 0, m.val());
        }
        matches
    }
}

/// A trade at the head of an existing level keeps the side well-formed.
proof fn lemma_side_after_trade_wf(ls: Seq<LevelV>, i: int, m: int)
    requires
        side_wf(ls),
        0 <= i < ls.len(),
    ensures
        side_wf(side_after_trade(ls, i, m)),
{
    let l2 = level_after_trade(ls[i], m);
    if l2.entries.len() == 0 {
        let r = ls.remove(i);
        assert(forall|a: int, b: int|
            0 <= a < b < r.len() ==> #[trigger] r[a].price < #[trigger] r[b].price) by {
            assert(forall|a: int| 0 <= a < r.len() ==> #[trigger] r[a] == if a < i {
                ls[a]
            } else {
                ls[a + 1]
            });
        }
        assert(forall|a: int| 0 <= a < r.len() ==> #[trigger] r[a].entries.len() > 0) by {
            assert(forall|a: int| 0 <= a < r.len() ==> #[trigger] r[a] == if a < i {
                ls[a]
            } else {
                ls[a + 1]
            });
        }
    } else {
        let r = ls.update(i, l2);
        assert(l2.price == ls[i].price);
        assert(forall|a: int, b: int|
            0 <= a < b < r.len() ==> #[trigger] r[a].price < #[trigger] r[b].price);
        assert(forall|a: int| 0 <= a < r.len() ==> #[trigger] r[a].entries.len() > 0);
    }
}

} // verus!
