//! The event translation boundary: raw log payloads in, typed orders out,
//! and match results back to the fixed binary output layout.
//!
//! An event arrives as its list of 32-byte topics and its data bytes.  The
//! first four bytes of the first topic identify the event.  An order-placement
//! event carries the order identifier and the trader in the second and third
//! topics, and six further 32-byte big-endian words in the data: side, base
//! token, quote token, price, amount, timestamp.  Addresses are the low 20
//! bytes of their word.  Match results are encoded as four 32-byte big-endian
//! words each, concatenated.

use vstd::prelude::*;
use vstd::bytes::*;

use crate::codec::pow2_128;
use crate::num::U256;
use crate::order::{MatchResult, MatchV, Order, OrderStatus, OrderType, OrderV};

verus! {

/// Why an event failed to decode.
#[derive(Clone, Copy, Debug, PartialEq, Eq, Structural)]
pub enum DecodeError {
    /// The topics or the data do not have the event's shape.
    MalformedEvent,
    /// The side word is neither zero (buy) nor one (sell).
    InvalidSide,
    /// The order identifier does not fit 64 bits.
    OrderIdTooLarge,
    /// The timestamp does not fit 64 bits.
    TimestampTooLarge,
}

/// All bytes of `s` in `[a, b)` are zero.
pub open spec fn bytes_zero(s: Seq<u8>, a: int, b: int) -> bool {
    forall|k: int| a <= k < b ==> s[k] == 0
}

/// The big-endian 64-bit value of an 8-byte sequence.
pub open spec fn be64(s: Seq<u8>) -> u64
    recommends
        s.len() == 8,
{
    spec_u64_from_le_bytes(s.reverse())
}

/// The big-endian 128-bit value of a 16-byte sequence.
pub open spec fn be128(s: Seq<u8>) -> u128
    recommends
        s.len() == 16,
{
    spec_u128_from_le_bytes(s.reverse())
}

/// The big-endian 256-bit value of a 32-byte word.
pub open spec fn word_be(w: Seq<u8>) -> int
    recommends
        w.len() == 32,
{
    be128(w.subrange(16, 32)) + be128(w.subrange(0, 16)) * pow2_128()
}

/// The 32-byte big-endian encoding of a 256-bit value.
pub open spec fn word_of(v: int) -> Seq<u8>
    recommends
        0 <= v < pow2_128() * pow2_128(),
{
    spec_u128_to_le_bytes((v / pow2_128()) as u128).reverse() + spec_u128_to_le_bytes(
        (v % pow2_128()) as u128,
    ).reverse()
}

/// The first topic announces an order-placement event.
pub open spec fn is_order_placed_sig(t: Seq<u8>) -> bool {
    t.len() >= 4 && t[0] == 0xf8u8 && t[1] == 0x60u8 && t[2] == 0x59u8 && t[3] == 0x9fu8
}

/// The first topic announces a trigger event.
pub open spec fn is_trigger_sig(t: Seq<u8>) -> bool {
    t.len() >= 4 && t[0] == 0x7fu8 && t[1] == 0xc7u8 && t[2] == 0x26u8 && t[3] == 0x16u8
}

/// A side word is a 32-byte word whose value is zero or one.
pub open spec fn side_word_ok(w: Seq<u8>) -> bool {
    bytes_zero(w, 0, 31) && (w[31] == 0 || w[31] == 1)
}

/// What decoding an order-placement event yields, in full: the exact shape
/// demanded of topics and data, each error with the condition that raises it,
/// and every field of the resulting order.
pub open spec fn spec_parse_order_placed(topics: Seq<Seq<u8>>, data: Seq<u8>) -> Result<
    OrderV,
    DecodeError,
> {
    if !(topics.len() == 3 && is_order_placed_sig(topics[0]) && topics[1].len() == 32
        && topics[2].len() == 32 && data.len() == 192) {
        Err(DecodeError::MalformedEvent)
    } else if !side_word_ok(data.subrange(0, 32)) {
        Err(DecodeError::InvalidSide)
    } else if !bytes_zero(topics[1], 0, 24) {
        Err(DecodeError::OrderIdTooLarge)
    } else if !bytes_zero(data, 160, 184) {
        Err(DecodeError::TimestampTooLarge)
    } else {
        Ok(
            OrderV {
                id: be64(topics[1].subrange(24, 32)),
                trader: topics[2].subrange(12, 32),
                order_type: if data[31] == 0 {
                    OrderType::Buy
                } else {
                    OrderType::Sell
                },
                base_token: data.subrange(44, 64),
                quote_token: data.subrange(76, 96),
                price: word_be(data.subrange(96, 128)),
                amount: word_be(data.subrange(128, 160)),
                filled_amount: 0,
                status: OrderStatus::Open,
                timestamp: be64(data.subrange(184, 192)),
            },
        )
    }
}

/// What decoding a trigger event yields: the order identifier it carries.
pub open spec fn spec_parse_clob_trigger(topics: Seq<Seq<u8>>, data: Seq<u8>) -> Result<
    int,
    DecodeError,
> {
    if topics.len() == 2 && is_trigger_sig(topics[0]) && topics[1].len() == 32 {
        Ok(word_be(topics[1]))
    } else {
        Err(DecodeError::MalformedEvent)
    }
}

/// The fixed binary layout of the matches: for each match, four 32-byte
/// big-endian words in order buy id, sell id, amount, price, concatenated.
pub open spec fn enc_match(m: MatchV) -> Seq<u8> {
    word_of(m.buy_order_id) + (word_of(m.sell_order_id) + (word_of(m.match_amount) + word_of(
        m.match_price,
    )))
}

pub open spec fn enc_matches(ms: Seq<MatchV>) -> Seq<u8>
    decreases ms.len(),
{
    if ms.len() == 0 {
        Seq::empty()
    } else {
        enc_match(ms[0]) + enc_matches(ms.drop_first())
    }
}

/// Copy `s[a..b]` out.
fn copy_range(s: &Vec<u8>, a: usize, b: usize) -> (r: Vec<u8>)
    requires
        a <= b <= s@.len(),
    ensures
        r@ == s@.subrange(a as int, b as int),
{
    let sl = vstd::slice::slice_subrange(s.as_slice(), a, b);
    vstd::slice::slice_to_vec(sl)
}

/// All bytes of `s[a..b]` are zero.
fn check_zero(s: &Vec<u8>, a: usize, b: usize) -> (r: bool)
    requires
        a <= b <= s@.len(),
    ensures
        r == bytes_zero(s@, a as int, b as int),
{
    let mut k = a;
    #[verifier::loop_isolation(false)]
    while k < b
        invariant
            a <= k <= b,
            forall|m: int| a <= m < k ==> s@[m] == 0,
        decreases b - k,
    {
        if s[k] != 0 {
            return false;
        }
        k += 1;
    }
    true
}

/// The big-endian 64-bit integer at `s[off..off + 8]`.
fn read_be64_at(s: &Vec<u8>, off: usize) -> (r: u64)
    requires
        off + 8 <= s@.len(),
    ensures
        r == be64(s@.subrange(off as int, off as int + 8)),
{
    let n = s.len();
    assert(off + 8 <= n);
    let mut tmp: Vec<u8> = Vec::new();
    let mut k: usize = 0;
    #[verifier::loop_isolation(false)]
    while k < 8
        invariant
            k <= 8,
            tmp@.len() == k,
            forall|m: int| 0 <= m < k ==> tmp@[m] == s@[off + 7 - m],
        decreases 8 - k,
    {
        let byte = s[off + 7 - k];
        tmp.push(byte);
        k += 1;
    }
    assert(tmp@ =~= s@.subrange(off as int, off as int + 8).reverse());
    u64_from_le_bytes(tmp.as_slice())
}

/// The big-endian 128-bit integer at `s[off..off + 16]`.
fn read_be128_at(s: &Vec<u8>, off: usize) -> (r: u128)
    requires
        off + 16 <= s@.len(),
    ensures
        r == be128(s@.subrange(off as int, off as int + 16)),
{
    let n = s.len();
    assert(off + 16 <= n);
    let mut tmp: Vec<u8> = Vec::new();
    let mut k: usize = 0;
    #[verifier::loop_isolation(false)]
    while k < 16
        invariant
            k <= 16,
            tmp@.len() == k,
            forall|m: int| 0 <= m < k ==> tmp@[m] == s@[off + 15 - m],
        decreases 16 - k,
    {
        let byte = s[off + 15 - k];
        tmp.push(byte);
        k += 1;
    }
    assert(tmp@ =~= s@.subrange(off as int, off as int + 16).reverse());
    u128_from_le_bytes(tmp.as_slice())
}

/// The big-endian 256-bit integer at `s[off..off + 32]`.
fn read_word_at(s: &Vec<u8>, off: usize) -> (r: U256)
    requires
        off + 32 <= s@.len(),
    ensures
        r.val() == word_be(s@.subrange(off as int, off as int + 32)),
{
    let n = s.len();
    assert(off + 32 <= n);
    let hi = read_be128_at(s, off);
    let lo = read_be128_at(s, off + 16);
    let ghost w = s@.subrange(off as int, off as int + 32);
    assert(w.subrange(0, 16) =~= s@.subrange(off as int, off as int + 16));
    assert(w.subrange(16, 32) =~= s@.subrange(off as int + 16, off as int + 32));
    U256 { lo: lo, hi: hi }
}

/// Append the 32-byte big-endian encoding of `v`.
fn push_word(out: &mut Vec<u8>, v: U256)
    ensures
        final(out)@ == old(out)@ + word_of(v.val()),
{
    proof {
        v.lemma_limbs_of_val();
    }
    let hi_bytes = u128_to_le_bytes(v.hi);
    let lo_bytes = u128_to_le_bytes(v.lo);
    let mut k: usize = 0;
    #[verifier::loop_isolation(false)]
    while k < 16
        invariant
            k <= 16,
            out@.len() == old(out)@.len() + k,
            forall|m: int| 0 <= m < old(out)@.len() ==> #[trigger] out@[m] == old(out)@[m],
            forall|m: int|
                old(out)@.len() <= m < old(out)@.len() + k ==> #[trigger] out@[m] == hi_bytes@[15
                    - (m - old(out)@.len())],
        decreases 16 - k,
    {
        let byte = hi_bytes[15 - k];
        out.push(byte);
        k += 1;
    }
    let mut k2: usize = 0;
    #[verifier::loop_isolation(false)]
    while k2 < 16
        invariant
            k2 <= 16,
            out@.len() == old(out)@.len() + 16 + k2,
            forall|m: int| 0 <= m < old(out)@.len() ==> #[trigger] out@[m] == old(out)@[m],
            forall|m: int|
                old(out)@.len() <= m < old(out)@.len() + 16 ==> #[trigger] out@[m] == hi_bytes@[15
                    - (m - old(out)@.len())],
            forall|m: int|
                old(out)@.len() + 16 <= m < old(out)@.len() + 16 + k2 ==> #[trigger] out@[m]
                    == lo_bytes@[15 - (m - old(out)@.len() - 16)],
        decreases 16 - k2,
    {
        let byte = lo_bytes[15 - k2];
        out.push(byte);
        k2 += 1;
    }
    proof {
        lemma_auto_spec_u128_to_from_le_bytes();
        assert(hi_bytes@ == spec_u128_to_le_bytes((v.val() / pow2_128()) as u128));
        assert(lo_bytes@ == spec_u128_to_le_bytes((v.val() % pow2_128()) as u128));
        assert(hi_bytes@.len() == 16);
        assert(lo_bytes@.len() == 16);
        assert(forall|m: int| 0 <= m < 16 ==> #[trigger] hi_bytes@.reverse()[m] == hi_bytes@[15 - m]);
        assert(forall|m: int| 0 <= m < 16 ==> #[trigger] lo_bytes@.reverse()[m] == lo_bytes@[15 - m]);
    }
    assert(out@ =~= old(out)@ + word_of(v.val()));
}

impl MatchResult {
    /// The four 32-byte words of one match, in output order.
    pub fn to_output_words(&self) -> (r: Vec<u8>)
        ensures
            r@ == enc_match(self@),
    {
        let mut out: Vec<u8> = Vec::new();
        push_word(&mut out, self.buy_order_id);
        push_word(&mut out, self.sell_order_id);
        push_word(&mut out, self.match_amount);
        push_word(&mut out, self.match_price);
        assert(out@ =~= enc_match(self@));
        out
    }
}

proof fn lemma_enc_matches_take_step(ms: Seq<MatchV>, k: int)
    requires
        0 <= k < ms.len(),
    ensures
        enc_matches(ms.take(k + 1)) == enc_matches(ms.take(k)) + enc_match(ms[k]),
    decreases k,
{
    if k == 0 {
        assert(ms.take(1) =~= seq![ms[0]]);
        assert(ms.take(0) =~= Seq::<MatchV>::empty());
        assert(enc_matches(seq![ms[0]].drop_first()) == Seq::<u8>::empty()) by {
            assert(seq![ms[0]].drop_first() =~= Seq::<MatchV>::empty());
            assert(enc_matches(Seq::<MatchV>::empty()) == Seq::<u8>::empty());
        }
        assert(enc_matches(ms.take(1)) =~= enc_matches(ms.take(0)) + enc_match(ms[0]));
    } else {
        let tail = ms.drop_first();
        lemma_enc_matches_take_step(tail, k - 1);
        assert(ms.take(k + 1).drop_first() =~= tail.take(k));
        assert(ms.take(k).drop_first() =~= tail.take(k - 1));
        assert(ms.take(k + 1)[0] == ms[0]);
        assert(ms.take(k)[0] == ms[0]);
        assert(tail[k - 1] == ms[k]);
        assert(enc_matches(ms.take(k + 1)) == enc_match(ms[0]) + enc_matches(tail.take(k)));
        assert(enc_matches(ms.take(k)) == enc_match(ms[0]) + enc_matches(tail.take(k - 1)));
        assert(enc_match(ms[0]) + (enc_matches(tail.take(k - 1)) + enc_match(ms[k])) =~= (
        enc_match(ms[0]) + enc_matches(tail.take(k - 1))) + enc_match(ms[k]));
    }
}

/// Encode the matched orders into the fixed binary output layout.
pub fn encode_matches_output(matches: &Vec<MatchResult>) -> (r: Vec<u8>)
    ensures
        r@ == enc_matches(matches@.map_values(|m: MatchResult| m@)),
{
    let ghost ms = matches@.map_values(|m: MatchResult| m@);
    let mut out: Vec<u8> = Vec::new();
    let n = matches.len();
    let mut k: usize = 0;
    assert(out@ =~= enc_matches(ms.take(0)));
    #[verifier::loop_isolation(false)]
    while k < n
        invariant
            k <= n,
            n == ms.len(),
            out@ == enc_matches(ms.take(k as int)),
        decreases n - k,
    {
        assert(matches@[k as int]@ == ms[k as int]);
        let mut words = matches[k].to_output_words();
        out.append(&mut words);
        proof {
            lemma_enc_matches_take_step(ms, k as int);
        }
        k += 1;
    }
    assert(ms.take(n as int) =~= ms);
    out
}

pub(crate) fn topic_has_sig(t: &Vec<u8>, b0: u8, b1: u8, b2: u8, b3: u8) -> (r: bool)
    ensures
        r == (t@.len() >= 4 && t@[0] == b0 && t@[1] == b1 && t@[2] == b2 && t@[3] == b3),
{
    t.len() >= 4 && t[0] == b0 && t[1] == b1 && t[2] == b2 && t[3] == b3
}

/// Parse an order-placement event from its topics and data.
pub fn parse_order_placed_event(topics: &Vec<Vec<u8>>, data: &Vec<u8>) -> (r: Result<
    Order,
    DecodeError,
>)
    ensures
        match r {
            Ok(o) => spec_parse_order_placed(
                topics@.map_values(|t: Vec<u8>| t@),
                data@,
            ) == Ok::<OrderV, DecodeError>(o@),
            Err(e) => spec_parse_order_placed(topics@.map_values(|t: Vec<u8>| t@), data@) == Err::<
                OrderV,
                DecodeError,
            >(e),
        },
{
    let ghost tv = topics@.map_values(|t: Vec<u8>| t@);
    let shape_ok = topics.len() == 3 && topic_has_sig(&topics[0], 0xf8, 0x60, 0x59, 0x9f);
    if !shape_ok {
        assert(!(tv.len() == 3 && is_order_placed_sig(tv[0])));
        return Err(DecodeError::MalformedEvent);
    }
    assert(tv[0] == topics@[0]@);
    assert(tv[1] == topics@[1]@);
    assert(tv[2] == topics@[2]@);
    let t1 = &topics[1];
    let t2 = &topics[2];
    if t1.len() != 32 || t2.len() != 32 || data.len() != 192 {
        return Err(DecodeError::MalformedEvent);
    }
    // The side word: 31 zero bytes, then zero or one.
    let side_zero = check_zero(data, 0, 31);
    let side_byte = data[31];
    assert(data@.subrange(0, 32)[31] == data@[31]);
    assert(bytes_zero(data@.subrange(0, 32), 0, 31) == bytes_zero(data@, 0, 31)) by {
        assert(forall|k: int| 0 <= k < 31 ==> data@.subrange(0, 32)[k] == data@[k]);
    }
    if !(side_zero && (side_byte == 0 || side_byte == 1)) {
        return Err(DecodeError::InvalidSide);
    }
    if !check_zero(t1, 0, 24) {
        return Err(DecodeError::OrderIdTooLarge);
    }
    if !check_zero(data, 160, 184) {
        return Err(DecodeError::TimestampTooLarge);
    }
    let order = Order {
        id: read_be64_at(t1, 24),
        trader: copy_range(t2, 12, 32),
        order_type: if side_byte == 0 {
            OrderType::Buy
        } else {
            OrderType::Sell
        },
        base_token: copy_range(data, 44, 64),
        quote_token: copy_range(data, 76, 96),
        price: read_word_at(data, 96),
        amount: read_word_at(data, 128),
        filled_amount: U256::zero(),
        status: OrderStatus::Open,
        timestamp: read_be64_at(data, 184),
    };
    assert(order@ =~= spec_parse_order_placed(tv, data@)->Ok_0);
    Ok(order)
}

/// Parse a trigger event: it carries only the order identifier.
pub fn parse_clob_trigger(topics: &Vec<Vec<u8>>, data: &Vec<u8>) -> (r: Result<U256, DecodeError>)
    ensures
        match r {
            Ok(v) => spec_parse_clob_trigger(topics@.map_values(|t: Vec<u8>| t@), data@) == Ok::<
                int,
                DecodeError,
            >(v.val()),
            Err(e) => spec_parse_clob_trigger(topics@.map_values(|t: Vec<u8>| t@), data@) == Err::<
                int,
                DecodeError,
            >(e),
        },
{
    let ghost tv = topics@.map_values(|t: Vec<u8>| t@);
    if topics.len() != 2 {
        return Err(DecodeError::MalformedEvent);
    }
    assert(tv[0] == topics@[0]@);
    assert(tv[1] == topics@[1]@);
    if !topic_has_sig(&topics[0], 0x7f, 0xc7, 0x26, 0x16) {
        return Err(DecodeError::MalformedEvent);
    }
    let t1 = &topics[1];
    if t1.len() != 32 {
        return Err(DecodeError::MalformedEvent);
    }
    let v = read_word_at(t1, 0);
    assert(t1@.subrange(0, 32) =~= t1@);
    Ok(v)
}

} // verus!
