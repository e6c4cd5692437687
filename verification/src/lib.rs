//! A central limit order book (CLOB) matching engine with price-time priority.
//!
//! The engine keeps two price-ordered sides of resting orders, ingests newly
//! placed orders, and performs one matching pass per invocation.  The whole
//! book state round-trips through a binary snapshot so that a host with no
//! long-lived memory can carry it between invocations.
//!
//! One processing cycle is `process_trigger`: rehydrate the book from the
//! snapshot bytes, classify the incoming event by the leading four bytes of
//! its first topic, insert the order if the event places one, run one
//! matching pass, and hand back the matches with the new snapshot.

use vstd::prelude::*;

pub mod book;
pub mod codec;
pub mod laws;
pub mod num;
pub mod order;
pub mod trigger;

use crate::book::{BookV, OrderBook};
use crate::codec::{enc_book, spec_load};
use crate::order::{MatchResult, MatchV};
use crate::trigger::{
    is_order_placed_sig, is_trigger_sig, parse_clob_trigger, parse_order_placed_event,
    spec_parse_clob_trigger, spec_parse_order_placed, topic_has_sig, DecodeError,
};

verus! {

/// One processing cycle on the decoded book: which matches come out and what
/// the book becomes.  An event with no topics or an unrecognized signature
/// leaves the book as it was and yields no match; a trigger event likewise
/// (it is reserved for later semantics); an order-placement event adds the
/// order and makes one matching pass; a decode failure aborts the cycle.
pub open spec fn spec_event_outcome(topics: Seq<Seq<u8>>, data: Seq<u8>, b: BookV) -> Result<
    (Seq<MatchV>, BookV),
    DecodeError,
> {
    if topics.len() == 0 {
        Ok((Seq::empty(), b))
    } else if is_trigger_sig(topics[0]) {
        match spec_parse_clob_trigger(topics, data) {
            Ok(_) => Ok((Seq::empty(), b)),
            Err(e) => Err(e),
        }
    } else if is_order_placed_sig(topics[0]) {
        match spec_parse_order_placed(topics, data) {
            Err(e) => Err(e),
            Ok(o) => {
                let b1 = b.after_add(o);
                if b1.matched() {
                    Ok((seq![b1.the_match()], b1.after_match()))
                } else {
                    Ok((Seq::empty(), b1))
                }
            },
        }
    } else {
        Ok((Seq::empty(), b))
    }
}

/// Process one event against the snapshot: load the book (a missing or
/// corrupt snapshot means an empty book), apply the event, and return the
/// matches together with the snapshot of the updated book.  On a decode
/// error nothing is returned, so no book mutation is committed.
pub fn process_trigger(topics: &Vec<Vec<u8>>, data: &Vec<u8>, snapshot: &Vec<u8>) -> (r: Result<
    (Vec<MatchResult>, Vec<u8>),
    DecodeError,
>)
    ensures
        match r {
            Ok(out) => {
                let oc = spec_event_outcome(
                    topics@.map_values(|t: Vec<u8>| t@),
                    data@,
                    spec_load(snapshot@),
                );
                &&& oc is Ok
                &&& out.0@.map_values(|m: MatchResult| m@) == oc->Ok_0.0
                &&& out.1@ == enc_book(oc->Ok_0.1)
            },
            Err(e) => spec_event_outcome(
                topics@.map_values(|t: Vec<u8>| t@),
                data@,
                spec_load(snapshot@),
            ) == Err::<(Seq<MatchV>, BookV), DecodeError>(e),
        },
{
    let ghost tv = topics@.map_values(|t: Vec<u8>| t@);
    let mut book = OrderBook::load(snapshot);
    let matches: Vec<MatchResult> = Vec::new();
    assert(matches@.map_values(|m: MatchResult| m@) =~= Seq::<MatchV>::empty());
    if topics.len() == 0 {
        let snap2 = book.save();
        return Ok((matches, snap2));
    }
    assert(tv[0] == topics@[0]@);
    let is_trig = topic_has_sig(&topics[0], 0x7f, 0xc7, 0x26, 0x16);
    let is_placed = topic_has_sig(&topics[0], 0xf8, 0x60, 0x59, 0x9f);
    if is_trig {
        match parse_clob_trigger(topics, data) {
            Ok(_) => {
                let snap2 = book.save();
                Ok((matches, snap2))
            },
            Err(e) => Err(e),
        }
    } else if is_placed {
        match parse_order_placed_event(topics, data) {
            Err(e) => Err(e),
            Ok(order) => {
                let ghost o = order@;
                book.add_order(order);
                let ms = book.match_orders();
                proof {
                    let b1 = spec_load(snapshot@).after_add(o);
                    if b1.matched() {
                        assert(ms@.map_values(|m: MatchResult| m@) =~= seq![b1.the_match()]);
                    } else {
                        assert(ms@.map_values(|m: MatchResult| m@) =~= Seq::<MatchV>::empty());
                    }
                }
                let snap2 = book.save();
                Ok((ms, snap2))
            },
        }
    } else {
        let snap2 = book.save();
        Ok((matches, snap2))
    }
}

} // verus!
