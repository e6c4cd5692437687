//! The snapshot codec: the whole order book as a byte sequence.
//!
//! The layout is little-endian and length-prefixed: 64-bit counts and
//! byte-string lengths, 256-bit integers as 32 bytes (low limb first), one
//! tag byte for each enumeration, and for each side its level count followed
//! by the levels in ascending price order, each level carrying its price, its
//! entry count, and its entries oldest first.  `save` produces exactly this
//! encoding; `load` decodes it and falls back to the empty book when the bytes
//! do not parse or the decoded book is not well-formed, so a missing or
//! corrupt snapshot degrades to "no resting liquidity" rather than an error.

use vstd::prelude::*;
use vstd::bytes::*;

use crate::book::{side_view, side_wf, BookV, LevelV, OrderBook, PriceLevel};
use crate::num::U256;
use crate::order::{EntryV, Order, OrderBookEntry, OrderStatus, OrderType, OrderV};

verus! {

pub open spec fn pow2_64() -> int {
    0x10000000000000000int
}

pub open spec fn pow2_128() -> int {
    0x100000000000000000000000000000000int
}

pub open spec fn pow2_256() -> int {
    0x10000000000000000000000000000000000000000000000000000000000000000int
}

/// A value representable as a 256-bit unsigned integer.
pub open spec fn word_ok(v: int) -> bool {
    0 <= v < pow2_256()
}

/// A length representable as a 64-bit count.
pub open spec fn len64_ok(n: nat) -> bool {
    n < pow2_64()
}

// ---------------------------------------------------------------------------
// Encoding, over the book's mathematical view.
// ---------------------------------------------------------------------------

pub open spec fn enc_u64(x: u64) -> Seq<u8> {
    spec_u64_to_le_bytes(x)
}

pub open spec fn enc_u256(v: int) -> Seq<u8> {
    spec_u128_to_le_bytes((v % pow2_128()) as u128) + spec_u128_to_le_bytes(
        (v / pow2_128()) as u128,
    )
}

pub open spec fn enc_bytes(b: Seq<u8>) -> Seq<u8> {
    enc_u64(b.len() as u64) + b
}

pub open spec fn order_type_tag(t: OrderType) -> u8 {
    match t {
        OrderType::Buy => 0,
        OrderType::Sell => 1,
    }
}

pub open spec fn status_tag(st: OrderStatus) -> u8 {
    match st {
        OrderStatus::Open => 0,
        OrderStatus::PartiallyFilled => 1,
        OrderStatus::Filled => 2,
        OrderStatus::Cancelled => 3,
    }
}

pub open spec fn enc_order(o: OrderV) -> Seq<u8> {
    enc_u64(o.id) + (enc_bytes(o.trader) + (seq![order_type_tag(o.order_type)] + (enc_bytes(
        o.base_token,
    ) + (enc_bytes(o.quote_token) + (enc_u256(o.price) + (enc_u256(o.amount) + (enc_u256(
        o.filled_amount,
    ) + (seq![status_tag(o.status)] + enc_u64(o.timestamp)))))))))
}

pub open spec fn enc_entry(e: EntryV) -> Seq<u8> {
    enc_order(e.order) + enc_u256(e.remaining)
}

pub open spec fn enc_entries(es: Seq<EntryV>) -> Seq<u8>
    decreases es.len(),
{
    if es.len() == 0 {
        Seq::empty()
    } else {
        enc_entry(es[0]) + enc_entries(es.drop_first())
    }
}

pub open spec fn enc_level(l: LevelV) -> Seq<u8> {
    enc_u256(l.price) + (enc_u64(l.entries.len() as u64) + enc_entries(l.entries))
}

pub open spec fn enc_levels(ls: Seq<LevelV>) -> Seq<u8>
    decreases ls.len(),
{
    if ls.len() == 0 {
        Seq::empty()
    } else {
        enc_level(ls[0]) + enc_levels(ls.drop_first())
    }
}

pub open spec fn enc_side(ls: Seq<LevelV>) -> Seq<u8> {
    enc_u64(ls.len() as u64) + enc_levels(ls)
}

/// The snapshot encoding of a whole book: buy side, then sell side.
pub open spec fn enc_book(b: BookV) -> Seq<u8> {
    enc_side(b.buys) + enc_side(b.sells)
}

// ---------------------------------------------------------------------------
// Encodability: every count fits 64 bits, every quantity fits 256 bits.
// The view of any executable book satisfies all of this by construction.
// ---------------------------------------------------------------------------

pub open spec fn order_ok(o: OrderV) -> bool {
    &&& len64_ok(o.trader.len())
    &&& len64_ok(o.base_token.len())
    &&& len64_ok(o.quote_token.len())
    &&& word_ok(o.price)
    &&& word_ok(o.amount)
    &&& word_ok(o.filled_amount)
}

pub open spec fn entry_ok(e: EntryV) -> bool {
    order_ok(e.order) && word_ok(e.remaining)
}

pub open spec fn level_ok(l: LevelV) -> bool {
    &&& word_ok(l.price)
    &&& len64_ok(l.entries.len())
    &&& forall|k: int| 0 <= k < l.entries.len() ==> entry_ok(#[trigger] l.entries[k])
}

pub open spec fn side_ok(ls: Seq<LevelV>) -> bool {
    &&& len64_ok(ls.len())
    &&& forall|k: int| 0 <= k < ls.len() ==> level_ok(#[trigger] ls[k])
}

pub open spec fn book_ok(b: BookV) -> bool {
    side_ok(b.buys) && side_ok(b.sells)
}

// ---------------------------------------------------------------------------
// Decoding, as a cursor over the byte sequence.
// ---------------------------------------------------------------------------

pub open spec fn dec_u64(s: Seq<u8>, i: int) -> Option<(u64, int)> {
    if 0 <= i && i + 8 <= s.len() {
        Some((spec_u64_from_le_bytes(s.subrange(i, i + 8)), i + 8))
    } else {
        None
    }
}

pub open spec fn dec_u128(s: Seq<u8>, i: int) -> Option<(u128, int)> {
    if 0 <= i && i + 16 <= s.len() {
        Some((spec_u128_from_le_bytes(s.subrange(i, i + 16)), i + 16))
    } else {
        None
    }
}

pub open spec fn dec_u256(s: Seq<u8>, i: int) -> Option<(int, int)> {
    match dec_u128(s, i) {
        None => None,
        Some((lo, j)) => match dec_u128(s, j) {
            None => None,
            Some((hi, k)) => Some((lo + hi * pow2_128(), k)),
        },
    }
}

pub open spec fn dec_bytes(s: Seq<u8>, i: int) -> Option<(Seq<u8>, int)> {
    match dec_u64(s, i) {
        None => None,
        Some((n, j)) => if j + n <= s.len() {
            Some((s.subrange(j, j + n), j + n))
        } else {
            None
        },
    }
}

pub open spec fn dec_order_type(s: Seq<u8>, i: int) -> Option<(OrderType, int)> {
    if 0 <= i && i + 1 <= s.len() {
        if s[i] == 0u8 {
            Some((OrderType::Buy, i + 1))
        } else if s[i] == 1u8 {
            Some((OrderType::Sell, i + 1))
        } else {
            None
        }
    } else {
        None
    }
}

pub open spec fn dec_status(s: Seq<u8>, i: int) -> Option<(OrderStatus, int)> {
    if 0 <= i && i + 1 <= s.len() {
        if s[i] == 0u8 {
            Some((OrderStatus::Open, i + 1))
        } else if s[i] == 1u8 {
            Some((OrderStatus::PartiallyFilled, i + 1))
        } else if s[i] == 2u8 {
            Some((OrderStatus::Filled, i + 1))
        } else if s[i] == 3u8 {
            Some((OrderStatus::Cancelled, i + 1))
        } else {
            None
        }
    } else {
        None
    }
}

pub open spec fn dec_order(s: Seq<u8>, i: int) -> Option<(OrderV, int)> {
    match dec_u64(s, i) {
        None => None,
        Some((id, i1)) => match dec_bytes(s, i1) {
            None => None,
            Some((trader, i2)) => match dec_order_type(s, i2) {
                None => None,
                Some((ot, i3)) => match dec_bytes(s, i3) {
                    None => None,
                    Some((base, i4)) => match dec_bytes(s, i4) {
                        None => None,
                        Some((quote, i5)) => match dec_u256(s, i5) {
                            None => None,
                            Some((price, i6)) => match dec_u256(s, i6) {
                                None => None,
                                Some((amount, i7)) => match dec_u256(s, i7) {
                                    None => None,
                                    Some((filled, i8r)) => match dec_status(s, i8r) {
                                        None => None,
                                        Some((st, i9)) => match dec_u64(s, i9) {
                                            None => None,
                                            Some((ts, i10)) => Some(
                                                (
                                                    OrderV {
                                                        id: id,
                                                        trader: trader,
                                                        order_type: ot,
                                                        base_token: base,
                                                        quote_token: quote,
                                                        price: price,
                                                        amount: amount,
                                                        filled_amount: filled,
                                                        status: st,
                                                        timestamp: ts,
                                                    },
                                                    i10,
                                                ),
                                            ),
                                        },
                                    },
                                },
                            },
                        },
                    },
                },
            },
        },
    }
}

pub open spec fn dec_entry(s: Seq<u8>, i: int) -> Option<(EntryV, int)> {
    match dec_order(s, i) {
        None => None,
        Some((o, j)) => match dec_u256(s, j) {
            None => None,
            Some((rem, k)) => Some((EntryV { order: o, remaining: rem }, k)),
        },
    }
}

pub open spec fn dec_entries(s: Seq<u8>, i: int, n: nat) -> Option<(Seq<EntryV>, int)>
    decreases n,
{
    if n == 0 {
        Some((Seq::empty(), i))
    } else {
        match dec_entry(s, i) {
            None => None,
            Some((e, j)) => match dec_entries(s, j, (n - 1) as nat) {
                None => None,
                Some((es, k)) => Some((seq![e] + es, k)),
            },
        }
    }
}

pub open spec fn dec_level(s: Seq<u8>, i: int) -> Option<(LevelV, int)> {
    match dec_u256(s, i) {
        None => None,
        Some((p, j)) => match dec_u64(s, j) {
            None => None,
            Some((n, j2)) => match dec_entries(s, j2, n as nat) {
                None => None,
                Some((es, k)) => Some((LevelV { price: p, entries: es }, k)),
            },
        },
    }
}

pub open spec fn dec_levels(s: Seq<u8>, i: int, n: nat) -> Option<(Seq<LevelV>, int)>
    decreases n,
{
    if n == 0 {
        Some((Seq::empty(), i))
    } else {
        match dec_level(s, i) {
            None => None,
            Some((l, j)) => match dec_levels(s, j, (n - 1) as nat) {
                None => None,
                Some((ls, k)) => Some((seq![l] + ls, k)),
            },
        }
    }
}

pub open spec fn dec_side(s: Seq<u8>, i: int) -> Option<(Seq<LevelV>, int)> {
    match dec_u64(s, i) {
        None => None,
        Some((n, j)) => dec_levels(s, j, n as nat),
    }
}

/// Decode a whole snapshot; trailing bytes make the snapshot invalid.
pub open spec fn dec_book(s: Seq<u8>) -> Option<BookV> {
    match dec_side(s, 0) {
        None => None,
        Some((buys, j)) => match dec_side(s, j) {
            None => None,
            Some((sells, k)) => if k == s.len() {
                Some(BookV { buys: buys, sells: sells })
            } else {
                None
            },
        },
    }
}

/// What `load` yields: the decoded book when the bytes parse to a well-formed
/// book, and the empty book otherwise.
pub open spec fn spec_load(s: Seq<u8>) -> BookV {
    match dec_book(s) {
        Some(v) => if v.wf() {
            v
        } else {
            BookV::empty()
        },
        None => BookV::empty(),
    }
}

// ---------------------------------------------------------------------------
// Round trip: decoding an encoding yields the encoded value.
// ---------------------------------------------------------------------------

/// Splitting a subrange known to be a concatenation.
proof fn lemma_subrange_concat(s: Seq<u8>, i: int, x: Seq<u8>, y: Seq<u8>)
    requires
        0 <= i,
        i + x.len() + y.len() <= s.len(),
        s.subrange(i, i + x.len() + y.len()) == x + y,
    ensures
        s.subrange(i, i + x.len() as int) == x,
        s.subrange(i + x.len() as int, i + x.len() + y.len()) == y,
{
    assert(s.subrange(i, i + x.len() as int) =~= x) by {
        assert forall|k: int| 0 <= k < x.len() implies s.subrange(i, i + x.len() as int)[k] == x[k] by {
            assert((x + y)[k] == x[k]);
            assert(s.subrange(i, i + x.len() + y.len())[k] == s[i + k]);
        }
    }
    assert(s.subrange(i + x.len() as int, i + x.len() + y.len()) =~= y) by {
        assert forall|k: int| 0 <= k < y.len() implies s.subrange(
            i + x.len() as int,
            i + x.len() + y.len(),
        )[k] == y[k] by {
            assert((x + y)[x.len() + k] == y[k]);
            assert(s.subrange(i, i + x.len() + y.len())[x.len() + k] == s[i + x.len() + k]);
        }
    }
}

proof fn lemma_dec_enc_u64(s: Seq<u8>, i: int, x: u64)
    requires
        0 <= i,
        i + 8 <= s.len(),
        s.subrange(i, i + 8) == enc_u64(x),
    ensures
        dec_u64(s, i) == Some((x, i + 8)),
{
    lemma_auto_spec_u64_to_from_le_bytes();
    assert(spec_u64_to_le_bytes(x).len() == 8);
}

proof fn lemma_dec_enc_u128(s: Seq<u8>, i: int, x: u128)
    requires
        0 <= i,
        i + 16 <= s.len(),
        s.subrange(i, i + 16) == spec_u128_to_le_bytes(x),
    ensures
        dec_u128(s, i) == Some((x, i + 16)),
{
    lemma_auto_spec_u128_to_from_le_bytes();
    assert(spec_u128_to_le_bytes(x).len() == 16);
}

proof fn lemma_enc_u64_len(x: u64)
    ensures
        enc_u64(x).len() == 8,
{
    lemma_auto_spec_u64_to_from_le_bytes();
}

proof fn lemma_enc_u256_len(v: int)
    ensures
        enc_u256(v).len() == 32,
{
    lemma_auto_spec_u128_to_from_le_bytes();
    assert(spec_u128_to_le_bytes((v % pow2_128()) as u128).len() == 16);
    assert(spec_u128_to_le_bytes((v / pow2_128()) as u128).len() == 16);
}

proof fn lemma_enc_bytes_len(b: Seq<u8>)
    ensures
        enc_bytes(b).len() == 8 + b.len(),
{
    lemma_enc_u64_len(b.len() as u64);
}

proof fn lemma_dec_enc_u256(s: Seq<u8>, i: int, v: int)
    requires
        word_ok(v),
        0 <= i,
        i + 32 <= s.len(),
        s.subrange(i, i + 32) == enc_u256(v),
    ensures
        dec_u256(s, i) == Some((v, i + 32)),
{
    let lo = (v % pow2_128()) as u128;
    let hi = (v / pow2_128()) as u128;
    lemma_auto_spec_u128_to_from_le_bytes();
    assert(spec_u128_to_le_bytes(lo).len() == 16);
    assert(spec_u128_to_le_bytes(hi).len() == 16);
    assert(0 <= v % pow2_128() < pow2_128()) by {
        vstd::arithmetic::div_mod::lemma_mod_bound(v, pow2_128());
    }
    assert(0 <= v / pow2_128() < pow2_128()) by {
        vstd::arithmetic::div_mod::lemma_div_nonincreasing(v, pow2_128());
        vstd::arithmetic::div_mod::lemma_div_pos_is_pos(v, pow2_128());
        if v / pow2_128() >= pow2_128() {
            vstd::arithmetic::div_mod::lemma_fundamental_div_mod(v, pow2_128());
        }
    }
    lemma_subrange_concat(s, i, spec_u128_to_le_bytes(lo), spec_u128_to_le_bytes(hi));
    lemma_dec_enc_u128(s, i, lo);
    lemma_dec_enc_u128(s, i + 16, hi);
    assert(lo + hi * pow2_128() == v) by {
        vstd::arithmetic::div_mod::lemma_fundamental_div_mod(v, pow2_128());
    }
}

proof fn lemma_dec_enc_bytes(s: Seq<u8>, i: int, b: Seq<u8>)
    requires
        len64_ok(b.len()),
        0 <= i,
        i + enc_bytes(b).len() <= s.len(),
        s.subrange(i, i + enc_bytes(b).len()) == enc_bytes(b),
    ensures
        dec_bytes(s, i) == Some((b, i + 8 + b.len())),
        enc_bytes(b).len() == 8 + b.len(),
{
    lemma_auto_spec_u64_to_from_le_bytes();
    lemma_subrange_concat(s, i, enc_u64(b.len() as u64), b);
    lemma_dec_enc_u64(s, i, b.len() as u64);
}

proof fn lemma_dec_enc_order_type(s: Seq<u8>, i: int, t: OrderType)
    requires
        0 <= i,
        i + 1 <= s.len(),
        s.subrange(i, i + 1) == seq![order_type_tag(t)],
    ensures
        dec_order_type(s, i) == Some((t, i + 1)),
{
    assert(s[i] == s.subrange(i, i + 1)[0]);
}

proof fn lemma_dec_enc_status(s: Seq<u8>, i: int, st: OrderStatus)
    requires
        0 <= i,
        i + 1 <= s.len(),
        s.subrange(i, i + 1) == seq![status_tag(st)],
    ensures
        dec_status(s, i) == Some((st, i + 1)),
{
    assert(s[i] == s.subrange(i, i + 1)[0]);
}

proof fn lemma_dec_enc_order(s: Seq<u8>, i: int, o: OrderV)
    requires
        order_ok(o),
        0 <= i,
        i + enc_order(o).len() <= s.len(),
        s.subrange(i, i + enc_order(o).len()) == enc_order(o),
    ensures
        dec_order(s, i) == Some((o, i + enc_order(o).len())),
{
    lemma_auto_spec_u64_to_from_le_bytes();
    lemma_auto_spec_u128_to_from_le_bytes();
    lemma_enc_u64_len(o.id);
    lemma_enc_u64_len(o.timestamp);
    lemma_enc_u256_len(o.price);
    lemma_enc_u256_len(o.amount);
    lemma_enc_u256_len(o.filled_amount);
    lemma_enc_bytes_len(o.trader);
    lemma_enc_bytes_len(o.base_token);
    lemma_enc_bytes_len(o.quote_token);
    let r1 = enc_bytes(o.trader) + (seq![order_type_tag(o.order_type)] + (enc_bytes(o.base_token)
        + (enc_bytes(o.quote_token) + (enc_u256(o.price) + (enc_u256(o.amount) + (enc_u256(
        o.filled_amount,
    ) + (seq![status_tag(o.status)] + enc_u64(o.timestamp))))))));
    let r2 = seq![order_type_tag(o.order_type)] + (enc_bytes(o.base_token) + (enc_bytes(
        o.quote_token,
    ) + (enc_u256(o.price) + (enc_u256(o.amount) + (enc_u256(o.filled_amount) + (seq![
        status_tag(o.status),
    ] + enc_u64(o.timestamp)))))));
    let r3 = enc_bytes(o.base_token) + (enc_bytes(o.quote_token) + (enc_u256(o.price) + (enc_u256(
        o.amount,
    ) + (enc_u256(o.filled_amount) + (seq![status_tag(o.status)] + enc_u64(o.timestamp))))));
    let r4 = enc_bytes(o.quote_token) + (enc_u256(o.price) + (enc_u256(o.amount) + (enc_u256(
        o.filled_amount,
    ) + (seq![status_tag(o.status)] + enc_u64(o.timestamp)))));
    let r5 = enc_u256(o.price) + (enc_u256(o.amount) + (enc_u256(o.filled_amount) + (seq![
        status_tag(o.status),
    ] + enc_u64(o.timestamp))));
    let r6 = enc_u256(o.amount) + (enc_u256(o.filled_amount) + (seq![status_tag(o.status)]
        + enc_u64(o.timestamp)));
    let r7 = enc_u256(o.filled_amount) + (seq![status_tag(o.status)] + enc_u64(o.timestamp));
    let r8 = seq![status_tag(o.status)] + enc_u64(o.timestamp);
    let i1 = i + 8;
    let i2 = i1 + 8 + o.trader.len();
    let i3 = i2 + 1;
    let i4 = i3 + 8 + o.base_token.len();
    let i5 = i4 + 8 + o.quote_token.len();
    let i6 = i5 + 32;
    let i7 = i6 + 32;
    let i8r = i7 + 32;
    let i9 = i8r + 1;
    let i10 = i9 + 8;
    lemma_subrange_concat(s, i, enc_u64(o.id), r1);
    lemma_dec_enc_u64(s, i, o.id);
    lemma_subrange_concat(s, i1, enc_bytes(o.trader), r2);
    lemma_dec_enc_bytes(s, i1, o.trader);
    lemma_subrange_concat(s, i2, seq![order_type_tag(o.order_type)], r3);
    lemma_dec_enc_order_type(s, i2, o.order_type);
    lemma_subrange_concat(s, i3, enc_bytes(o.base_token), r4);
    lemma_dec_enc_bytes(s, i3, o.base_token);
    lemma_subrange_concat(s, i4, enc_bytes(o.quote_token), r5);
    lemma_dec_enc_bytes(s, i4, o.quote_token);
    lemma_subrange_concat(s, i5, enc_u256(o.price), r6);
    lemma_dec_enc_u256(s, i5, o.price);
    lemma_subrange_concat(s, i6, enc_u256(o.amount), r7);
    lemma_dec_enc_u256(s, i6, o.amount);
    lemma_subrange_concat(s, i7, enc_u256(o.filled_amount), r8);
    lemma_dec_enc_u256(s, i7, o.filled_amount);
    lemma_subrange_concat(s, i8r, seq![status_tag(o.status)], enc_u64(o.timestamp));
    lemma_dec_enc_status(s, i8r, o.status);
    lemma_dec_enc_u64(s, i9, o.timestamp);
    assert(dec_order(s, i) == Some((o, i10)));
}

proof fn lemma_dec_enc_entry(s: Seq<u8>, i: int, e: EntryV)
    requires
        entry_ok(e),
        0 <= i,
        i + enc_entry(e).len() <= s.len(),
        s.subrange(i, i + enc_entry(e).len()) == enc_entry(e),
    ensures
        dec_entry(s, i) == Some((e, i + enc_entry(e).len())),
{
    lemma_enc_u256_len(e.remaining);
    lemma_subrange_concat(s, i, enc_order(e.order), enc_u256(e.remaining));
    lemma_dec_enc_order(s, i, e.order);
    lemma_dec_enc_u256(s, i + enc_order(e.order).len(), e.remaining);
}

proof fn lemma_dec_enc_entries(s: Seq<u8>, i: int, es: Seq<EntryV>)
    requires
        forall|k: int| 0 <= k < es.len() ==> entry_ok(#[trigger] es[k]),
        0 <= i,
        i + enc_entries(es).len() <= s.len(),
        s.subrange(i, i + enc_entries(es).len()) == enc_entries(es),
    ensures
        dec_entries(s, i, es.len()) == Some((es, i + enc_entries(es).len())),
    decreases es.len(),
{
    if es.len() == 0 {
        assert(dec_entries(s, i, 0) == Some((Seq::<EntryV>::empty(), i)));
        assert(es =~= Seq::<EntryV>::empty());
    } else {
        let e = es[0];
        let rest = es.drop_first();
        lemma_subrange_concat(s, i, enc_entry(e), enc_entries(rest));
        lemma_dec_enc_entry(s, i, e);
        let j = i + enc_entry(e).len();
        assert forall|k: int| 0 <= k < rest.len() implies entry_ok(#[trigger] rest[k]) by {
            assert(rest[k] == es[k + 1]);
        }
        lemma_dec_enc_entries(s, j, rest);
        assert(rest.len() == (es.len() - 1) as nat);
        assert(seq![e] + rest =~= es);
    }
}

proof fn lemma_dec_enc_level(s: Seq<u8>, i: int, l: LevelV)
    requires
        level_ok(l),
        0 <= i,
        i + enc_level(l).len() <= s.len(),
        s.subrange(i, i + enc_level(l).len()) == enc_level(l),
    ensures
        dec_level(s, i) == Some((l, i + enc_level(l).len())),
{
    lemma_auto_spec_u64_to_from_le_bytes();
    lemma_enc_u256_len(l.price);
    lemma_enc_u64_len(l.entries.len() as u64);
    let r1 = enc_u64(l.entries.len() as u64) + enc_entries(l.entries);
    lemma_subrange_concat(s, i, enc_u256(l.price), r1);
    lemma_dec_enc_u256(s, i, l.price);
    let j = i + 32;
    lemma_subrange_concat(s, j, enc_u64(l.entries.len() as u64), enc_entries(l.entries));
    lemma_dec_enc_u64(s, j, l.entries.len() as u64);
    lemma_dec_enc_entries(s, j + 8, l.entries);
}

proof fn lemma_dec_enc_levels(s: Seq<u8>, i: int, ls: Seq<LevelV>)
    requires
        forall|k: int| 0 <= k < ls.len() ==> level_ok(#[trigger] ls[k]),
        0 <= i,
        i + enc_levels(ls).len() <= s.len(),
        s.subrange(i, i + enc_levels(ls).len()) == enc_levels(ls),
    ensures
        dec_levels(s, i, ls.len()) == Some((ls, i + enc_levels(ls).len())),
    decreases ls.len(),
{
    if ls.len() == 0 {
        assert(dec_levels(s, i, 0) == Some((Seq::<LevelV>::empty(), i)));
        assert(ls =~= Seq::<LevelV>::empty());
    } else {
        let l = ls[0];
        let rest = ls.drop_first();
        lemma_subrange_concat(s, i, enc_level(l), enc_levels(rest));
        lemma_dec_enc_level(s, i, l);
        let j = i + enc_level(l).len();
        assert forall|k: int| 0 <= k < rest.len() implies level_ok(#[trigger] rest[k]) by {
            assert(rest[k] == ls[k + 1]);
        }
        lemma_dec_enc_levels(s, j, rest);
        assert(rest.len() == (ls.len() - 1) as nat);
        assert(seq![l] + rest =~= ls);
    }
}

proof fn lemma_dec_enc_side(s: Seq<u8>, i: int, ls: Seq<LevelV>)
    requires
        side_ok(ls),
        0 <= i,
        i + enc_side(ls).len() <= s.len(),
        s.subrange(i, i + enc_side(ls).len()) == enc_side(ls),
    ensures
        dec_side(s, i) == Some((ls, i + enc_side(ls).len())),
{
    lemma_auto_spec_u64_to_from_le_bytes();
    lemma_enc_u64_len(ls.len() as u64);
    lemma_subrange_concat(s, i, enc_u64(ls.len() as u64), enc_levels(ls));
    lemma_dec_enc_u64(s, i, ls.len() as u64);
    lemma_dec_enc_levels(s, i + 8, ls);
}


/// The view of any book the library can hold is encodable: every count fits
/// 64 bits and every quantity fits 256 bits, by construction.
pub proof fn lemma_book_encodable(b: &OrderBook)
    ensures
        book_ok(b@),
{
    lemma_side_encodable(&b.buy_levels);
    lemma_side_encodable(&b.sell_levels);
}

proof fn lemma_order_encodable(o: &Order)
    ensures
        order_ok(o@),
{
    vstd::std_specs::vec::axiom_spec_len(&o.trader);
    vstd::std_specs::vec::axiom_spec_len(&o.base_token);
    vstd::std_specs::vec::axiom_spec_len(&o.quote_token);
}

proof fn lemma_side_encodable(levels: &Vec<PriceLevel>)
    ensures
        side_ok(side_view(levels@)),
{
    vstd::std_specs::vec::axiom_spec_len(levels);
    let ls = side_view(levels@);
    assert forall|k: int| 0 <= k < ls.len() implies level_ok(#[trigger] ls[k]) by {
        assert(ls[k] == levels@[k]@);
        let lvl = levels@[k];
        vstd::std_specs::vec::axiom_spec_len(&lvl.entries);
        assert forall|m: int| 0 <= m < ls[k].entries.len() implies entry_ok(
            #[trigger] ls[k].entries[m],
        ) by {
            assert(ls[k].entries[m] == lvl.entries@[m]@);
            lemma_order_encodable(&lvl.entries@[m].order);
        }
    }
}

/// Decoding an encoded book yields the book.
pub proof fn lemma_dec_enc_book(b: BookV)
    requires
        book_ok(b),
    ensures
        dec_book(enc_book(b)) == Some(b),
{
    let s = enc_book(b);
    assert(s.subrange(0, s.len() as int) =~= s);
    lemma_subrange_concat(s, 0, enc_side(b.buys), enc_side(b.sells));
    lemma_dec_enc_side(s, 0, b.buys);
    lemma_dec_enc_side(s, enc_side(b.buys).len() as int, b.sells);
    assert(dec_book(s) == Some(BookV { buys: b.buys, sells: b.sells }));
    assert(BookV { buys: b.buys, sells: b.sells } == b);
}

/// Persistence round trip: a saved well-formed book loads back equal, by
/// value, to the book that was saved.
pub proof fn lemma_save_load_round_trip(b: BookV)
    requires
        b.wf(),
        book_ok(b),
    ensures
        spec_load(enc_book(b)) == b,
{
    lemma_dec_enc_book(b);
}


// ---------------------------------------------------------------------------
// Executable encoding.
// ---------------------------------------------------------------------------

fn push_u64(out: &mut Vec<u8>, x: u64)
    ensures
        final(out)@ == old(out)@ + enc_u64(x),
{
    let mut b = u64_to_le_bytes(x);
    out.append(&mut b);
}

fn push_u256(out: &mut Vec<u8>, v: U256)
    ensures
        final(out)@ == old(out)@ + enc_u256(v.val()),
{
    proof {
        v.lemma_limbs_of_val();
    }
    let mut lo = u128_to_le_bytes(v.lo);
    out.append(&mut lo);
    let mut hi = u128_to_le_bytes(v.hi);
    out.append(&mut hi);
    assert(out@ =~= old(out)@ + enc_u256(v.val()));
}

fn push_bytes(out: &mut Vec<u8>, b: &Vec<u8>)
    ensures
        final(out)@ == old(out)@ + enc_bytes(b@),
{
    push_u64(out, b.len() as u64);
    let n = b.len();
    let mut k: usize = 0;
    #[verifier::loop_isolation(false)]
    while k < n
        invariant
            k <= n,
            out@ == old(out)@ + enc_u64(b@.len() as u64) + b@.take(k as int),
        decreases n - k,
    {
        let byte = b[k];
        out.push(byte);
        assert(out@ =~= old(out)@ + enc_u64(b@.len() as u64) + b@.take(k as int + 1));
        k += 1;
    }
    assert(b@.take(n as int) =~= b@);
    assert(out@ =~= old(out)@ + enc_bytes(b@));
}

fn push_order(out: &mut Vec<u8>, o: &Order)
    ensures
        final(out)@ == old(out)@ + enc_order(o@),
{
    push_u64(out, o.id);
    push_bytes(out, &o.trader);
    let t: u8 = match o.order_type {
        OrderType::Buy => 0,
        OrderType::Sell => 1,
    };
    out.push(t);
    push_bytes(out, &o.base_token);
    push_bytes(out, &o.quote_token);
    push_u256(out, o.price);
    push_u256(out, o.amount);
    push_u256(out, o.filled_amount);
    let st: u8 = match o.status {
        OrderStatus::Open => 0,
        OrderStatus::PartiallyFilled => 1,
        OrderStatus::Filled => 2,
        OrderStatus::Cancelled => 3,
    };
    out.push(st);
    push_u64(out, o.timestamp);
    assert(out@ =~= old(out)@ + enc_order(o@));
}

fn push_entry(out: &mut Vec<u8>, e: &OrderBookEntry)
    ensures
        final(out)@ == old(out)@ + enc_entry(e@),
{
    push_order(out, &e.order);
    push_u256(out, e.remaining_amount);
    assert(out@ =~= old(out)@ + enc_entry(e@));
}

proof fn lemma_enc_entries_take_step(es: Seq<EntryV>, k: int)
    requires
        0 <= k < es.len(),
    ensures
        enc_entries(es.take(k + 1)) == enc_entries(es.take(k)) + enc_entry(es[k]),
    decreases k,
{
    if k == 0 {
        assert(es.take(1) =~= seq![es[0]]);
        assert(es.take(0) =~= Seq::<EntryV>::empty());
        assert(enc_entries(seq![es[0]].drop_first()) == Seq::<u8>::empty()) by {
            assert(seq![es[0]].drop_first() =~= Seq::<EntryV>::empty());
            assert(enc_entries(Seq::<EntryV>::empty()) == Seq::<u8>::empty());
        }
        assert(enc_entries(es.take(1)) =~= enc_entries(es.take(0)) + enc_entry(es[0]));
    } else {
        let tail = es.drop_first();
        lemma_enc_entries_take_step(tail, k - 1);
        assert(es.take(k + 1).drop_first() =~= tail.take(k));
        assert(es.take(k).drop_first() =~= tail.take(k - 1));
        assert(es.take(k + 1)[0] == es[0]);
        assert(es.take(k)[0] == es[0]);
        assert(tail[k - 1] == es[k]);
        assert(enc_entries(es.take(k + 1)) == enc_entry(es[0]) + enc_entries(tail.take(k)));
        assert(enc_entries(es.take(k)) == enc_entry(es[0]) + enc_entries(tail.take(k - 1)));
        assert(enc_entry(es[0]) + (enc_entries(tail.take(k - 1)) + enc_entry(es[k])) =~= (
        enc_entry(es[0]) + enc_entries(tail.take(k - 1))) + enc_entry(es[k]));
    }
}

proof fn lemma_enc_levels_take_step(ls: Seq<LevelV>, k: int)
    requires
        0 <= k < ls.len(),
    ensures
        enc_levels(ls.take(k + 1)) == enc_levels(ls.take(k)) + enc_level(ls[k]),
    decreases k,
{
    if k == 0 {
        assert(ls.take(1) =~= seq![ls[0]]);
        assert(ls.take(0) =~= Seq::<LevelV>::empty());
        assert(enc_levels(seq![ls[0]].drop_first()) == Seq::<u8>::empty()) by {
            assert(seq![ls[0]].drop_first() =~= Seq::<LevelV>::empty());
            assert(enc_levels(Seq::<LevelV>::empty()) == Seq::<u8>::empty());
        }
        assert(enc_levels(ls.take(1)) =~= enc_levels(ls.take(0)) + enc_level(ls[0]));
    } else {
        let tail = ls.drop_first();
        lemma_enc_levels_take_step(tail, k - 1);
        assert(ls.take(k + 1).drop_first() =~= tail.take(k));
        assert(ls.take(k).drop_first() =~= tail.take(k - 1));
        assert(ls.take(k + 1)[0] == ls[0]);
        assert(ls.take(k)[0] == ls[0]);
        assert(tail[k - 1] == ls[k]);
        assert(enc_levels(ls.take(k + 1)) == enc_level(ls[0]) + enc_levels(tail.take(k)));
        assert(enc_levels(ls.take(k)) == enc_level(ls[0]) + enc_levels(tail.take(k - 1)));
        assert(enc_level(ls[0]) + (enc_levels(tail.take(k - 1)) + enc_level(ls[k])) =~= (
        enc_level(ls[0]) + enc_levels(tail.take(k - 1))) + enc_level(ls[k]));
    }
}

fn push_level(out: &mut Vec<u8>, l: &PriceLevel)
    ensures
        final(out)@ == old(out)@ + enc_level(l@),
{
    push_u256(out, l.price);
    push_u64(out, l.entries.len() as u64);
    let n = l.entries.len();
    let ghost es = l@.entries;
    let mut k: usize = 0;
    #[verifier::loop_isolation(false)]
    while k < n
        invariant
            k <= n,
            n == es.len(),
            out@ == old(out)@ + enc_u256(l@.price) + enc_u64(es.len() as u64) + enc_entries(
                es.take(k as int),
            ),
        decreases n - k,
    {
        assert(l.entries@[k as int]@ == es[k as int]);
        push_entry(out, &l.entries[k]);
        proof {
            lemma_enc_entries_take_step(es, k as int);
        }
        k += 1;
    }
    assert(es.take(n as int) =~= es);
    assert(out@ =~= old(out)@ + enc_level(l@));
}

fn push_side(out: &mut Vec<u8>, levels: &Vec<PriceLevel>)
    ensures
        final(out)@ == old(out)@ + enc_side(side_view(levels@)),
{
    push_u64(out, levels.len() as u64);
    let n = levels.len();
    let ghost ls = side_view(levels@);
    let mut k: usize = 0;
    #[verifier::loop_isolation(false)]
    while k < n
        invariant
            k <= n,
            n == ls.len(),
            out@ == old(out)@ + enc_u64(ls.len() as u64) + enc_levels(ls.take(k as int)),
        decreases n - k,
    {
        assert(levels@[k as int]@ == ls[k as int]);
        push_level(out, &levels[k]);
        proof {
            lemma_enc_levels_take_step(ls, k as int);
        }
        k += 1;
    }
    assert(ls.take(n as int) =~= ls);
    assert(out@ =~= old(out)@ + enc_side(ls));
}

// ---------------------------------------------------------------------------
// Executable decoding.
// ---------------------------------------------------------------------------

fn read_u64(s: &Vec<u8>, i: usize) -> (r: Option<(u64, usize)>)
    requires
        i <= s@.len(),
    ensures
        match r {
            Some((x, j)) => dec_u64(s@, i as int) == Some((x, j as int)) && i < j <= s@.len(),
            None => dec_u64(s@, i as int) is None,
        },
{
    if s.len() - i < 8 {
        return None;
    }
    let sl = vstd::slice::slice_subrange(s.as_slice(), i, i + 8);
    let x = u64_from_le_bytes(sl);
    Some((x, i + 8))
}

fn read_u256(s: &Vec<u8>, i: usize) -> (r: Option<(U256, usize)>)
    requires
        i <= s@.len(),
    ensures
        match r {
            Some((v, j)) => dec_u256(s@, i as int) == Some((v.val(), j as int)) && i < j
                <= s@.len(),
            None => dec_u256(s@, i as int) is None,
        },
{
    if s.len() - i < 32 {
        return None;
    }
    let sl_lo = vstd::slice::slice_subrange(s.as_slice(), i, i + 16);
    let lo = u128_from_le_bytes(sl_lo);
    let sl_hi = vstd::slice::slice_subrange(s.as_slice(), i + 16, i + 32);
    let hi = u128_from_le_bytes(sl_hi);
    let v = U256 { lo: lo, hi: hi };
    Some((v, i + 32))
}

fn read_bytes(s: &Vec<u8>, i: usize) -> (r: Option<(Vec<u8>, usize)>)
    requires
        i <= s@.len(),
    ensures
        match r {
            Some((b, j)) => dec_bytes(s@, i as int) == Some((b@, j as int)) && i <= j <= s@.len(),
            None => dec_bytes(s@, i as int) is None,
        },
{
    match read_u64(s, i) {
        None => None,
        Some((n, j)) => {
            if n > (s.len() - j) as u64 {
                return None;
            }
            let n_us = n as usize;
            let sl = vstd::slice::slice_subrange(s.as_slice(), j, j + n_us);
            let b = vstd::slice::slice_to_vec(sl);
            Some((b, j + n_us))
        },
    }
}

fn read_order_type(s: &Vec<u8>, i: usize) -> (r: Option<(OrderType, usize)>)
    requires
        i <= s@.len(),
    ensures
        match r {
            Some((t, j)) => dec_order_type(s@, i as int) == Some((t, j as int)) && i < j
                <= s@.len(),
            None => dec_order_type(s@, i as int) is None,
        },
{
    if s.len() - i < 1 {
        return None;
    }
    let b = s[i];
    if b == 0 {
        Some((OrderType::Buy, i + 1))
    } else if b == 1 {
        Some((OrderType::Sell, i + 1))
    } else {
        None
    }
}

fn read_status(s: &Vec<u8>, i: usize) -> (r: Option<(OrderStatus, usize)>)
    requires
        i <= s@.len(),
    ensures
        match r {
            Some((st, j)) => dec_status(s@, i as int) == Some((st, j as int)) && i < j <= s@.len(),
            None => dec_status(s@, i as int) is None,
        },
{
    if s.len() - i < 1 {
        return None;
    }
    let b = s[i];
    if b == 0 {
        Some((OrderStatus::Open, i + 1))
    } else if b == 1 {
        Some((OrderStatus::PartiallyFilled, i + 1))
    } else if b == 2 {
        Some((OrderStatus::Filled, i + 1))
    } else if b == 3 {
        Some((OrderStatus::Cancelled, i + 1))
    } else {
        None
    }
}

fn read_order(s: &Vec<u8>, i: usize) -> (r: Option<(Order, usize)>)
    requires
        i <= s@.len(),
    ensures
        match r {
            Some((o, j)) => dec_order(s@, i as int) == Some((o@, j as int)) && i <= j <= s@.len(),
            None => dec_order(s@, i as int) is None,
        },
{
    let (id, i1) = match read_u64(s, i) {
        None => {
            return None;
        },
        Some(x) => x,
    };
    let (trader, i2) = match read_bytes(s, i1) {
        None => {
            return None;
        },
        Some(x) => x,
    };
    let (ot, i3) = match read_order_type(s, i2) {
        None => {
            return None;
        },
        Some(x) => x,
    };
    let (base, i4) = match read_bytes(s, i3) {
        None => {
            return None;
        },
        Some(x) => x,
    };
    let (quote, i5) = match read_bytes(s, i4) {
        None => {
            return None;
        },
        Some(x) => x,
    };
    let (price, i6) = match read_u256(s, i5) {
        None => {
            return None;
        },
        Some(x) => x,
    };
    let (amount, i7) = match read_u256(s, i6) {
        None => {
            return None;
        },
        Some(x) => x,
    };
    let (filled, i8r) = match read_u256(s, i7) {
        None => {
            return None;
        },
        Some(x) => x,
    };
    let (st, i9) = match read_status(s, i8r) {
        None => {
            return None;
        },
        Some(x) => x,
    };
    let (ts, i10) = match read_u64(s, i9) {
        None => {
            return None;
        },
        Some(x) => x,
    };
    let o = Order {
        id: id,
        trader: trader,
        order_type: ot,
        base_token: base,
        quote_token: quote,
        price: price,
        amount: amount,
        filled_amount: filled,
        status: st,
        timestamp: ts,
    };
    assert(dec_order(s@, i as int) == Some((o@, i10 as int))) by {
        assert(o@ =~= dec_order(s@, i as int)->Some_0.0);
    }
    Some((o, i10))
}

fn read_entry(s: &Vec<u8>, i: usize) -> (r: Option<(OrderBookEntry, usize)>)
    requires
        i <= s@.len(),
    ensures
        match r {
            Some((e, j)) => dec_entry(s@, i as int) == Some((e@, j as int)) && i <= j <= s@.len(),
            None => dec_entry(s@, i as int) is None,
        },
{
    let (o, j) = match read_order(s, i) {
        None => {
            return None;
        },
        Some(x) => x,
    };
    let (rem, k) = match read_u256(s, j) {
        None => {
            return None;
        },
        Some(x) => x,
    };
    let e = OrderBookEntry { order: o, remaining_amount: rem };
    assert(e@ =~= dec_entry(s@, i as int)->Some_0.0);
    Some((e, k))
}

fn read_entries(s: &Vec<u8>, i: usize, n: u64) -> (r: Option<(Vec<OrderBookEntry>, usize)>)
    requires
        i <= s@.len(),
    ensures
        match r {
            Some((es, j)) => dec_entries(s@, i as int, n as nat) == Some(
                (es@.map_values(|e: OrderBookEntry| e@), j as int),
            ) && i <= j <= s@.len(),
            None => dec_entries(s@, i as int, n as nat) is None,
        },
{
    let mut acc: Vec<OrderBookEntry> = Vec::new();
    let mut cur = i;
    let mut k: u64 = 0;
    assert(acc@.map_values(|e: OrderBookEntry| e@) =~= Seq::<EntryV>::empty());
    #[verifier::loop_isolation(false)]
    while k < n
        invariant
            k <= n,
            i <= cur <= s@.len(),
            dec_entries(s@, i as int, n as nat) == (match dec_entries(
                s@,
                cur as int,
                (n - k) as nat,
            ) {
                None => None::<(Seq<EntryV>, int)>,
                Some((rest, end)) => Some(
                    (acc@.map_values(|e: OrderBookEntry| e@) + rest, end),
                ),
            }),
        decreases n - k,
    {
        let ghost accv = acc@.map_values(|e: OrderBookEntry| e@);
        match read_entry(s, cur) {
            None => {
                assert(dec_entries(s@, cur as int, (n - k) as nat) is None);
                return None;
            },
            Some((e, j)) => {
                proof {
                    let m = (n - k) as nat;
                    assert(dec_entries(s@, cur as int, m) == (match dec_entries(
                        s@,
                        j as int,
                        (m - 1) as nat,
                    ) {
                        None => None::<(Seq<EntryV>, int)>,
                        Some((rest, end)) => Some((seq![e@] + rest, end)),
                    }));
                    match dec_entries(s@, j as int, (m - 1) as nat) {
                        None => {},
                        Some((rest, end)) => {
                            assert(accv + (seq![e@] + rest) =~= accv.push(e@) + rest);
                        },
                    }
                }
                acc.push(e);
                assert(acc@.map_values(|x: OrderBookEntry| x@) =~= accv.push(e@));
                cur = j;
                k += 1;
            },
        }
    }
    assert(dec_entries(s@, cur as int, 0) == Some((Seq::<EntryV>::empty(), cur as int)));
    assert(acc@.map_values(|e: OrderBookEntry| e@) + Seq::<EntryV>::empty() =~= acc@.map_values(
        |e: OrderBookEntry| e@,
    ));
    Some((acc, cur))
}

fn read_level(s: &Vec<u8>, i: usize) -> (r: Option<(PriceLevel, usize)>)
    requires
        i <= s@.len(),
    ensures
        match r {
            Some((l, j)) => dec_level(s@, i as int) == Some((l@, j as int)) && i <= j <= s@.len(),
            None => dec_level(s@, i as int) is None,
        },
{
    let (p, j) = match read_u256(s, i) {
        None => {
            return None;
        },
        Some(x) => x,
    };
    let (n, j2) = match read_u64(s, j) {
        None => {
            return None;
        },
        Some(x) => x,
    };
    let (es, k) = match read_entries(s, j2, n) {
        None => {
            return None;
        },
        Some(x) => x,
    };
    let l = PriceLevel { price: p, entries: es };
    assert(l@ =~= dec_level(s@, i as int)->Some_0.0);
    Some((l, k))
}

fn read_side(s: &Vec<u8>, i: usize) -> (r: Option<(Vec<PriceLevel>, usize)>)
    requires
        i <= s@.len(),
    ensures
        match r {
            Some((levels, j)) => dec_side(s@, i as int) == Some(
                (side_view(levels@), j as int),
            ) && i <= j <= s@.len(),
            None => dec_side(s@, i as int) is None,
        },
{
    let (n, start) = match read_u64(s, i) {
        None => {
            return None;
        },
        Some(x) => x,
    };
    let mut acc: Vec<PriceLevel> = Vec::new();
    let mut cur = start;
    let mut k: u64 = 0;
    assert(side_view(acc@) =~= Seq::<LevelV>::empty());
    #[verifier::loop_isolation(false)]
    while k < n
        invariant
            k <= n,
            i <= cur <= s@.len(),
            dec_levels(s@, start as int, n as nat) == (match dec_levels(
                s@,
                cur as int,
                (n - k) as nat,
            ) {
                None => None::<(Seq<LevelV>, int)>,
                Some((rest, end)) => Some((side_view(acc@) + rest, end)),
            }),
        decreases n - k,
    {
        let ghost accv = side_view(acc@);
        match read_level(s, cur) {
            None => {
                assert(dec_levels(s@, cur as int, (n - k) as nat) is None);
                return None;
            },
            Some((l, j)) => {
                proof {
                    let m = (n - k) as nat;
                    assert(dec_levels(s@, cur as int, m) == (match dec_levels(
                        s@,
                        j as int,
                        (m - 1) as nat,
                    ) {
                        None => None::<(Seq<LevelV>, int)>,
                        Some((rest, end)) => Some((seq![l@] + rest, end)),
                    }));
                    match dec_levels(s@, j as int, (m - 1) as nat) {
                        None => {},
                        Some((rest, end)) => {
                            assert(accv + (seq![l@] + rest) =~= accv.push(l@) + rest);
                        },
                    }
                }
                acc.push(l);
                assert(side_view(acc@) =~= accv.push(l@));
                cur = j;
                k += 1;
            },
        }
    }
    assert(dec_levels(s@, cur as int, 0) == Some((Seq::<LevelV>::empty(), cur as int)));
    assert(side_view(acc@) + Seq::<LevelV>::empty() =~= side_view(acc@));
    Some((acc, cur))
}

pub(crate) proof fn lemma_adjacent_implies_sorted(ls: Seq<LevelV>, i: int, j: int)
    requires
        forall|k: int| 0 <= k < ls.len() - 1 ==> #[trigger] ls[k].price < ls[k + 1].price,
        0 <= i < j < ls.len(),
    ensures
        ls[i].price < ls[j].price,
    decreases j - i,
{
    if j > i + 1 {
        lemma_adjacent_implies_sorted(ls, i, j - 1);
    }
}

/// Whether one side of the book is well-formed: prices strictly ascending and
/// no empty level.
fn check_side_wf(levels: &Vec<PriceLevel>) -> (r: bool)
    ensures
        r == side_wf(side_view(levels@)),
{
    let ghost ls = side_view(levels@);
    let n = levels.len();
    let mut k: usize = 0;
    #[verifier::loop_isolation(false)]
    while k < n
        invariant
            k <= n,
            forall|a: int| 0 <= a < k ==> #[trigger] ls[a].entries.len() > 0,
            forall|a: int| 1 <= a < k ==> #[trigger] ls[a - 1].price < ls[a].price,
        decreases n - k,
    {
        assert(ls[k as int] == levels@[k as int]@);
        if levels[k].entries.is_empty() {
            assert(ls[k as int].entries.len() == 0);
            assert(!side_wf(ls));
            return false;
        }
        if k > 0 {
            assert(ls[k as int - 1] == levels@[k as int - 1]@);
            let prev = levels[k - 1].price;
            let here = levels[k].price;
            if !prev.lt(&here) {
                assert(ls[k as int - 1].price >= ls[k as int].price);
                assert(!side_wf(ls));
                return false;
            }
        }
        k += 1;
    }
    proof {
        assert forall|a: int, b: int|
            0 <= a < b < ls.len() implies #[trigger] ls[a].price < #[trigger] ls[b].price by {
            assert forall|c: int| 0 <= c < ls.len() - 1 implies #[trigger] ls[c].price < ls[c
                + 1].price by {
                assert(ls[c + 1].price > ls[(c + 1) - 1].price);
            }
            lemma_adjacent_implies_sorted(ls, a, b);
        }
    }
    true
}

impl OrderBook {
    /// Serialize the whole book into its snapshot bytes.
    pub fn save(&self) -> (r: Vec<u8>)
        ensures
            r@ == enc_book(self@),
    {
        let mut out: Vec<u8> = Vec::new();
        push_side(&mut out, &self.buy_levels);
        push_side(&mut out, &self.sell_levels);
        assert(out@ =~= enc_book(self@));
        out
    }

    /// Rehydrate a book from snapshot bytes.  Bytes that do not parse, carry
    /// trailing garbage, or decode to a book that is not well-formed yield the
    /// empty book rather than an error.
    pub fn load(bytes: &Vec<u8>) -> (r: OrderBook)
        ensures
            r@ == spec_load(bytes@),
            r@.wf(),
    {
        proof {
            assert(BookV::empty().wf());
        }
        let (buys, j) = match read_side(bytes, 0) {
            None => {
                return OrderBook::new();
            },
            Some(x) => x,
        };
        let (sells, k) = match read_side(bytes, j) {
            None => {
                return OrderBook::new();
            },
            Some(x) => x,
        };
        if k != bytes.len() {
            return OrderBook::new();
        }
        let wf_buys = check_side_wf(&buys);
        let wf_sells = check_side_wf(&sells);
        let book = OrderBook { buy_levels: buys, sell_levels: sells };
        if wf_buys && wf_sells {
            assert(book@ =~= dec_book(bytes@)->Some_0);
            book
        } else {
            OrderBook::new()
        }
    }
}

} // verus!