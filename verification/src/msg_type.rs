//! Decoding the binary market messages that a publisher sends: one message
//! kind per type, selected by a `Msg<T>` marker.
use vstd::prelude::*;

use crypto_msg_parser::{BboMsg, KlineMsg, OrderBookMsg, TradeMsg};

verus! {

#[verifier::external_type_specification]
#[verifier::external_body]
pub struct ExBboMsg(BboMsg);

#[verifier::external_type_specification]
#[verifier::external_body]
pub struct ExTradeMsg(TradeMsg);

#[verifier::external_type_specification]
#[verifier::external_body]
pub struct ExOrderBookMsg(OrderBookMsg);

#[verifier::external_type_specification]
#[verifier::external_body]
pub struct ExKlineMsg(KlineMsg);

/// Whether `wmjtyd_libstock::data::bbo::decode_bbo` returns `Ok` on the payload.
pub uninterp spec fn bbo_payload_decodes(payload: Seq<u8>) -> bool;

/// Whether `wmjtyd_libstock::data::trade::decode_trade` returns `Ok` on the payload.
pub uninterp spec fn trade_payload_decodes(payload: Seq<u8>) -> bool;

/// Whether `wmjtyd_libstock::data::orderbook::decode_orderbook` returns `Ok` on the payload.
pub uninterp spec fn orderbook_payload_decodes(payload: Seq<u8>) -> bool;

/// Whether `wmjtyd_libstock::data::kline::decode_kline` returns `Ok` on the payload.
pub uninterp spec fn kline_payload_decodes(payload: Seq<u8>) -> bool;

// ---------------------------------------------------------------------------
// Decimal scales
//
// Each price, quantity or volume of a payload is a big-endian number whose
// last byte is its decimal scale; the decoders hand that byte to
// `rust_decimal::Decimal::new`, which panics on a scale above 28. The
// fields follow a 19-byte header (two timestamps, exchange, market type,
// message type, symbol).
// ---------------------------------------------------------------------------

/// The decimal of `width` bytes at `at`, if all its bytes are in `p`, has a
/// scale of at most 28.
pub open spec fn scale_fits(p: Seq<u8>, at: int, width: int) -> bool {
    at + width <= p.len() ==> p[at + width - 1] <= 28
}

/// The scales of a best-bid-offer payload: ask price and quantity, bid
/// price and quantity.
pub open spec fn bbo_scales_fit(p: Seq<u8>) -> bool {
    scale_fits(p, 19, 5) && scale_fits(p, 24, 5) && scale_fits(p, 29, 5) && scale_fits(p, 34, 5)
}

/// The scales of a trade payload: price and quantity after the side byte.
pub open spec fn trade_scales_fit(p: Seq<u8>) -> bool {
    scale_fits(p, 20, 5) && scale_fits(p, 25, 5)
}

/// The scales of a candlestick payload: open, high, low and close after the
/// period byte, then the ten-byte volume.
pub open spec fn kline_scales_fit(p: Seq<u8>) -> bool {
    scale_fits(p, 20, 5) && scale_fits(p, 25, 5) && scale_fits(p, 30, 5) && scale_fits(p, 35, 5)
        && scale_fits(p, 40, 10)
}

/// The scales of `n` orders (price and quantity, five bytes each) from `q`.
pub open spec fn orders_fit(p: Seq<u8>, q: int, n: nat) -> bool
    decreases n,
{
    n == 0 || (scale_fits(p, q, 5) && scale_fits(p, q + 5, 5) && orders_fit(p, q + 10, (n - 1) as nat))
}

/// The scales of the order groups of an order book payload from `o`: each
/// group is an info byte, a two-byte big-endian length whose tenth is the
/// number of orders, and the orders.
pub open spec fn book_scales_fit(p: Seq<u8>, o: int) -> bool
    decreases p.len() - o,
{
    if o + 3 > p.len() {
        true
    } else {
        let n = ((p[o + 1] as nat) * 256 + (p[o + 2] as nat)) / 10;
        let next = o + 3 + 10 * n;
        orders_fit(p, o + 3, n) && (next < p.len() ==> book_scales_fit(p, next))
    }
}

/// Orders wholly past the end of the payload have nothing to check.
proof fn lemma_orders_past_end(p: Seq<u8>, q: int, n: nat)
    requires
        q >= p.len(),
    ensures
        orders_fit(p, q, n),
    decreases n,
{
    if n > 0 {
        lemma_orders_past_end(p, q + 10, (n - 1) as nat);
    }
}

/// Whether the decimal of `width` bytes at `at` fits (see [`scale_fits`]).
fn scale_fits_at(p: &[u8], at: usize, width: usize) -> (r: bool)
    requires
        width >= 1,
    ensures
        r == scale_fits(p@, at as int, width as int),
{
    if at <= p.len() && width <= p.len() - at {
        p[at + width - 1] <= 28
    } else {
        true
    }
}

/// Whether `n` orders from `q` fit (see [`orders_fit`]).
fn orders_fit_at(p: &[u8], q: usize, n: usize) -> (r: bool)
    ensures
        r == orders_fit(p@, q as int, n as nat),
{
    let mut i: usize = 0;
    let mut pos: usize = q;
    while i < n && pos < p.len()
        invariant
            i <= n,
            pos == q + 10 * i,
            orders_fit(p@, q as int, n as nat) == orders_fit(p@, pos as int, (n - i) as nat),
        decreases n - i,
    {
        if p.len() - pos < 5 {
            proof {
                lemma_orders_past_end(p@, pos + 10, (n - i - 1) as nat);
            }
            return true;
        }
        if !scale_fits_at(p, pos, 5) || !scale_fits_at(p, pos + 5, 5) {
            return false;
        }
        if p.len() - pos <= 10 {
            proof {
                lemma_orders_past_end(p@, pos + 10, (n - i - 1) as nat);
            }
            return true;
        }
        pos = pos + 10;
        i = i + 1;
    }
    proof {
        if i < n {
            lemma_orders_past_end(p@, pos as int, (n - i) as nat);
        }
    }
    true
}

/// Whether a best-bid-offer payload's scales fit.
fn bbo_scales_fit_at(p: &[u8]) -> (r: bool)
    ensures
        r == bbo_scales_fit(p@),
{
    scale_fits_at(p, 19, 5) && scale_fits_at(p, 24, 5) && scale_fits_at(p, 29, 5) && scale_fits_at(p, 34, 5)
}

/// Whether a trade payload's scales fit.
fn trade_scales_fit_at(p: &[u8]) -> (r: bool)
    ensures
        r == trade_scales_fit(p@),
{
    scale_fits_at(p, 20, 5) && scale_fits_at(p, 25, 5)
}

/// Whether a candlestick payload's scales fit.
fn kline_scales_fit_at(p: &[u8]) -> (r: bool)
    ensures
        r == kline_scales_fit(p@),
{
    scale_fits_at(p, 20, 5) && scale_fits_at(p, 25, 5) && scale_fits_at(p, 30, 5) && scale_fits_at(p, 35, 5)
        && scale_fits_at(p, 40, 10)
}

/// Whether an order book payload's scales fit.
fn book_scales_fit_at(p: &[u8]) -> (r: bool)
    ensures
        r == book_scales_fit(p@, 19),
{
    let mut o: usize = 19;
    while o < p.len()
        invariant
            o >= 19,
            book_scales_fit(p@, 19) == book_scales_fit(p@, o as int),
        decreases p.len() - o,
    {
        if p.len() - o < 3 {
            return true;
        }
        let n: usize = ((p[o + 1] as usize) * 256 + (p[o + 2] as usize)) / 10;
        assert(n == ((p@[o + 1] as nat) * 256 + (p@[o + 2] as nat)) / 10);
        if !orders_fit_at(p, o + 3, n) {
            return false;
        }
        if p.len() - (o + 3) <= 10 * n {
            return true;
        }
        o = o + 3 + 10 * n;
    }
    true
}

/// `wmjtyd_libstock::data::bbo::decode_bbo`: decodes a best-bid-offer
/// message; whether it succeeds depends on the payload alone. It panics on
/// a decimal scale above 28, which `requires` leaves out.
#[verifier::external_body]
fn decode_bbo(payload: &[u8]) -> (r: Option<BboMsg>)
    requires
        bbo_scales_fit(payload@),
    ensures
        r is Some <==> bbo_payload_decodes(payload@),
{
    wmjtyd_libstock::data::bbo::decode_bbo(payload).ok()
}

/// `wmjtyd_libstock::data::trade::decode_trade`: decodes a trade message;
/// whether it succeeds depends on the payload alone. It panics on a decimal
/// scale above 28, which `requires` leaves out.
#[verifier::external_body]
fn decode_trade(payload: &[u8]) -> (r: Option<TradeMsg>)
    requires
        trade_scales_fit(payload@),
    ensures
        r is Some <==> trade_payload_decodes(payload@),
{
    wmjtyd_libstock::data::trade::decode_trade(payload).ok()
}

/// `wmjtyd_libstock::data::orderbook::decode_orderbook`: decodes an order
/// book message; whether it succeeds depends on the payload alone. It panics
/// on a decimal scale above 28, which `requires` leaves out.
#[verifier::external_body]
fn decode_orderbook(payload: &[u8]) -> (r: Option<OrderBookMsg>)
    requires
        book_scales_fit(payload@, 19),
    ensures
        r is Some <==> orderbook_payload_decodes(payload@),
{
    wmjtyd_libstock::data::orderbook::decode_orderbook(payload).ok()
}

/// `wmjtyd_libstock::data::kline::decode_kline`: decodes a candlestick
/// message; whether it succeeds depends on the payload alone. It panics on
/// a decimal scale above 28, which `requires` leaves out.
#[verifier::external_body]
fn decode_kline(payload: &[u8]) -> (r: Option<KlineMsg>)
    requires
        kline_scales_fit(payload@),
    ensures
        r is Some <==> kline_payload_decodes(payload@),
{
    wmjtyd_libstock::data::kline::decode_kline(payload).ok()
}

/// A marker that selects the message kind `T` to decode.
pub struct Msg<T>(pub Option<T>);

/// Decoding of one message kind.
pub trait Code<T> {
    /// Whether every decimal of the payload has a scale the decoder accepts.
    spec fn scales_fit(&self, c: Seq<u8>) -> bool;

    /// Whether the decoder accepts the payload (one whose scales fit).
    spec fn decodes(&self, c: Seq<u8>) -> bool;

    /// The decoded message, when the payload is one of this kind; `None`
    /// for a payload with a decimal scale above 28.
    fn try_decode(&self, c: &[u8]) -> (r: Option<T>)
        ensures
            r is Some <==> (self.scales_fit(c@) && self.decodes(c@)),
    ;

    /// The decoded message of a payload of this kind.
    fn decode(&self, c: &[u8]) -> (r: T)
        requires
            self.scales_fit(c@),
            self.decodes(c@),
    {
        match self.try_decode(c) {
            Some(v) => v,
            None => vstd::pervasive::unreached(),
        }
    }

    /// An empty marker of the same kind.
    fn clone(&self) -> (r: Msg<T>)
        ensures
            r.0 is None,
    {
        Msg(None)
    }
}

impl Code<BboMsg> for Msg<BboMsg> {
    open spec fn scales_fit(&self, c: Seq<u8>) -> bool {
        bbo_scales_fit(c)
    }

    open spec fn decodes(&self, c: Seq<u8>) -> bool {
        bbo_payload_decodes(c)
    }

    fn try_decode(&self, c: &[u8]) -> (r: Option<BboMsg>) {
        if bbo_scales_fit_at(c) {
            decode_bbo(c)
        } else {
            None
        }
    }
}

impl Code<TradeMsg> for Msg<TradeMsg> {
    open spec fn scales_fit(&self, c: Seq<u8>) -> bool {
        trade_scales_fit(c)
    }

    open spec fn decodes(&self, c: Seq<u8>) -> bool {
        trade_payload_decodes(c)
    }

    fn try_decode(&self, c: &[u8]) -> (r: Option<TradeMsg>) {
        if trade_scales_fit_at(c) {
            decode_trade(c)
        } else {
            None
        }
    }
}

impl Code<OrderBookMsg> for Msg<OrderBookMsg> {
    open spec fn scales_fit(&self, c: Seq<u8>) -> bool {
        book_scales_fit(c, 19)
    }

    open spec fn decodes(&self, c: Seq<u8>) -> bool {
        orderbook_payload_decodes(c)
    }

    fn try_decode(&self, c: &[u8]) -> (r: Option<OrderBookMsg>) {
        if book_scales_fit_at(c) {
            decode_orderbook(c)
        } else {
            None
        }
    }
}

impl Code<KlineMsg> for Msg<KlineMsg> {
    open spec fn scales_fit(&self, c: Seq<u8>) -> bool {
        kline_scales_fit(c)
    }

    open spec fn decodes(&self, c: Seq<u8>) -> bool {
        kline_payload_decodes(c)
    }

    fn try_decode(&self, c: &[u8]) -> (r: Option<KlineMsg>) {
        if kline_scales_fit_at(c) {
            decode_kline(c)
        } else {
            None
        }
    }
}

} // verus!
