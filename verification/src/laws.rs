//! Laws of the order book, stated over the book's mathematical view and
//! proved once and for all: what insertion does to a price level, when a
//! matching pass can trade at all, and that matching honours time priority.

use vstd::prelude::*;

use crate::book::{side_add, side_wf, BookV, LevelV};
use crate::order::{EntryV, OrderType, OrderV};

verus! {

/// The queue of resting entries at price `p` on one side (empty when no level
/// carries that price).
pub open spec fn entries_at(ls: Seq<LevelV>, p: int) -> Seq<EntryV>
    decreases ls.len(),
{
    if ls.len() == 0 {
        Seq::empty()
    } else if ls[0].price == p {
        ls[0].entries
    } else {
        entries_at(ls.drop_first(), p)
    }
}

/// The index at which price `p` lives, or would be inserted, on a sorted side.
pub open spec fn insert_pos(ls: Seq<LevelV>, p: int) -> int
    decreases ls.len(),
{
    if ls.len() == 0 {
        0
    } else if p <= ls[0].price {
        0
    } else {
        1 + insert_pos(ls.drop_first(), p)
    }
}

proof fn lemma_side_wf_drop_first(ls: Seq<LevelV>)
    requires
        side_wf(ls),
        ls.len() > 0,
    ensures
        side_wf(ls.drop_first()),
{
    let tail = ls.drop_first();
    assert forall|a: int, b: int|
        0 <= a < b < tail.len() implies #[trigger] tail[a].price < #[trigger] tail[b].price by {
        assert(tail[a] == ls[a + 1]);
        assert(tail[b] == ls[b + 1]);
    }
    assert forall|a: int| 0 <= a < tail.len() implies #[trigger] tail[a].entries.len() > 0 by {
        assert(tail[a] == ls[a + 1]);
    }
}

proof fn lemma_insert_pos(ls: Seq<LevelV>, p: int)
    requires
        side_wf(ls),
    ensures
        0 <= insert_pos(ls, p) <= ls.len(),
        forall|k: int| 0 <= k < insert_pos(ls, p) ==> #[trigger] ls[k].price < p,
        insert_pos(ls, p) < ls.len() ==> ls[insert_pos(ls, p)].price >= p,
    decreases ls.len(),
{
    if ls.len() == 0 || p <= ls[0].price {
    } else {
        let tail = ls.drop_first();
        lemma_side_wf_drop_first(ls);
        lemma_insert_pos(tail, p);
        let i = insert_pos(ls, p);
        assert forall|k: int| 0 <= k < i implies #[trigger] ls[k].price < p by {
            if k > 0 {
                assert(tail[k - 1] == ls[k]);
            }
        }
        if i < ls.len() {
            assert(tail[i - 1] == ls[i]);
        }
    }
}

/// Filing an entry keeps a side well-formed.
pub proof fn lemma_side_add_wf_any(ls: Seq<LevelV>, p: int, e: EntryV)
    requires
        side_wf(ls),
    ensures
        side_wf(side_add(ls, p, e)),
{
    lemma_insert_pos(ls, p);
    crate::book::lemma_side_add_wf(ls, p, e, insert_pos(ls, p));
}

/// Adding any order keeps the book well-formed.
pub proof fn lemma_after_add_wf(b: BookV, o: OrderV)
    requires
        b.wf(),
    ensures
        b.after_add(o).wf(),
{
    if o.amount > o.filled_amount {
        let e = EntryV { order: o, remaining: o.amount - o.filled_amount };
        match o.order_type {
            OrderType::Buy => lemma_side_add_wf_any(b.buys, o.price, e),
            OrderType::Sell => lemma_side_add_wf_any(b.sells, o.price, e),
        }
    }
}

proof fn lemma_entries_at_absent(ls: Seq<LevelV>, p: int)
    requires
        forall|k: int| 0 <= k < ls.len() ==> #[trigger] ls[k].price != p,
    ensures
        entries_at(ls, p) == Seq::<EntryV>::empty(),
    decreases ls.len(),
{
    if ls.len() > 0 {
        let tail = ls.drop_first();
        assert forall|k: int| 0 <= k < tail.len() implies #[trigger] tail[k].price != p by {
            assert(tail[k] == ls[k + 1]);
        }
        lemma_entries_at_absent(tail, p);
    }
}

/// What filing an entry under price `p` does to each price level: the queue at
/// `p` gains the entry at its back, every other queue is untouched.
proof fn lemma_side_add_entries_at(ls: Seq<LevelV>, p: int, e: EntryV, q: int)
    requires
        side_wf(ls),
    ensures
        entries_at(side_add(ls, p, e), q) == if q == p {
            entries_at(ls, p).push(e)
        } else {
            entries_at(ls, q)
        },
    decreases ls.len(),
{
    let r = side_add(ls, p, e);
    if ls.len() == 0 {
        if q == p {
            assert(entries_at(r, q) =~= entries_at(ls, p).push(e));
        } else {
            assert(r.drop_first() =~= Seq::<LevelV>::empty());
            assert(entries_at(r.drop_first(), q) == Seq::<EntryV>::empty());
        }
    } else if p < ls[0].price {
        assert(r == seq![LevelV { price: p, entries: seq![e] }] + ls);
        assert(r[0].price == p);
        assert(r.drop_first() =~= ls);
        if q == p {
            assert forall|k: int| 0 <= k < ls.len() implies #[trigger] ls[k].price != p by {
                if k > 0 {
                    assert(ls[0].price < ls[k].price);
                }
            }
            lemma_entries_at_absent(ls, p);
            assert(entries_at(r, p) =~= entries_at(ls, p).push(e));
        }
    } else if p == ls[0].price {
        assert(r == ls.update(0, LevelV { price: p, entries: ls[0].entries.push(e) }));
        assert(r[0].price == ls[0].price);
        if q == p {
            assert(entries_at(r, q) == ls[0].entries.push(e));
        } else {
            assert(r.drop_first() =~= ls.drop_first());
        }
    } else {
        let tail = ls.drop_first();
        lemma_side_wf_drop_first(ls);
        lemma_side_add_entries_at(tail, p, e, q);
        assert(r == seq![ls[0]] + side_add(tail, p, e));
        assert(r[0] == ls[0]);
        assert(r.drop_first() =~= side_add(tail, p, e));
        if q == ls[0].price {
            assert(q != p);
            assert(entries_at(r, q) == ls[0].entries);
        }
    }
}

/// Adding an order with something left to fill appends exactly one entry, of
/// size `amount - filledAmount`, to the back of the queue at the order's price
/// on the order's side; every other queue and the whole opposite side are
/// unchanged.
pub proof fn lemma_add_order_appends(b: BookV, o: OrderV)
    requires
        b.wf(),
        o.amount > o.filled_amount,
    ensures
        ({
            let b2 = b.after_add(o);
            let e = EntryV { order: o, remaining: o.amount - o.filled_amount };
            match o.order_type {
                OrderType::Buy => {
                    &&& entries_at(b2.buys, o.price) == entries_at(b.buys, o.price).push(e)
                    &&& forall|q: int|
                        q != o.price ==> #[trigger] entries_at(b2.buys, q) == entries_at(b.buys, q)
                    &&& b2.sells == b.sells
                },
                OrderType::Sell => {
                    &&& entries_at(b2.sells, o.price) == entries_at(b.sells, o.price).push(e)
                    &&& forall|q: int|
                        q != o.price ==> #[trigger] entries_at(b2.sells, q) == entries_at(
                            b.sells,
                            q,
                        )
                    &&& b2.buys == b.buys
                },
            }
        }),
{
    let e = EntryV { order: o, remaining: o.amount - o.filled_amount };
    match o.order_type {
        OrderType::Buy => {
            assert forall|q: int| true implies #[trigger] entries_at(
                side_add(b.buys, o.price, e),
                q,
            ) == if q == o.price {
                entries_at(b.buys, o.price).push(e)
            } else {
                entries_at(b.buys, q)
            } by {
                lemma_side_add_entries_at(b.buys, o.price, e, q);
            }
        },
        OrderType::Sell => {
            assert forall|q: int| true implies #[trigger] entries_at(
                side_add(b.sells, o.price, e),
                q,
            ) == if q == o.price {
                entries_at(b.sells, o.price).push(e)
            } else {
                entries_at(b.sells, q)
            } by {
                lemma_side_add_entries_at(b.sells, o.price, e, q);
            }
        },
    }
}

/// An order with nothing left to fill leaves the book exactly as it was.
pub proof fn lemma_add_order_filled_noop(b: BookV, o: OrderV)
    requires
        o.amount == o.filled_amount,
    ensures
        b.after_add(o) == b,
{
}

/// When either side is empty, or the best bid stands below the best ask, no
/// matching pass can record a trade.
pub proof fn lemma_no_cross_no_match(b: BookV)
    requires
        b.buys.len() == 0 || b.sells.len() == 0 || b.best_buy_price() < b.best_sell_price(),
    ensures
        !b.matched(),
{
}

proof fn lemma_entries_at_last(ls: Seq<LevelV>)
    requires
        side_wf(ls),
        ls.len() > 0,
    ensures
        entries_at(ls, ls.last().price) == ls.last().entries,
    decreases ls.len(),
{
    if ls.len() == 1 {
        assert(ls[0] == ls.last());
    } else {
        assert(ls[0].price < ls.last().price);
        let tail = ls.drop_first();
        lemma_side_wf_drop_first(ls);
        assert(tail.last() == ls.last());
        lemma_entries_at_last(tail);
    }
}

/// Time priority: with two buy orders at one price filed first `a`, then `c`,
/// onto a side that held nothing at that price, the queue at that price is
/// `a` then `c`; and if a matching pass then trades at that price, it is `a`
/// that the trade consumes from.
pub proof fn lemma_time_priority(b: BookV, a: OrderV, c: OrderV)
    requires
        b.wf(),
        a.order_type == OrderType::Buy,
        c.order_type == OrderType::Buy,
        c.price == a.price,
        a.amount > a.filled_amount,
        c.amount > c.filled_amount,
        entries_at(b.buys, a.price).len() == 0,
    ensures
        ({
            let b2 = b.after_add(a).after_add(c);
            let ea = EntryV { order: a, remaining: a.amount - a.filled_amount };
            let ec = EntryV { order: c, remaining: c.amount - c.filled_amount };
            &&& entries_at(b2.buys, a.price) == seq![ea, ec]
            &&& (b2.matched() && b2.best_buy_price() == a.price ==> b2.the_match().buy_order_id
                == a.id as int)
        }),
{
    let b1 = b.after_add(a);
    let b2 = b1.after_add(c);
    let ea = EntryV { order: a, remaining: a.amount - a.filled_amount };
    let ec = EntryV { order: c, remaining: c.amount - c.filled_amount };
    lemma_after_add_wf(b, a);
    lemma_after_add_wf(b1, c);
    lemma_add_order_appends(b, a);
    lemma_add_order_appends(b1, c);
    assert(entries_at(b2.buys, a.price) =~= seq![ea, ec]);
    if b2.matched() && b2.best_buy_price() == a.price {
        lemma_entries_at_last(b2.buys);
        assert(b2.buys.last().entries == seq![ea, ec]);
        assert(b2.buy_head() == ea);
    }
}

} // verus!
