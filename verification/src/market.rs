//! Market-data parameters: the subscription argument, its channel name, the
//! HTTP file request, and the actions a replay session exchanges.
use vstd::prelude::*;

use crate::text::{
    chars_of, lemma_split_pieces_props, push_char, push_chars, push_str, split_chars,
    split_pieces, str_eq,
};

verus! {

/// One market-data stream: exchange, market type, symbol and message type.
/// A message type may carry a period after `@`, as in `kline@60`.
#[derive(Debug, Clone, PartialEq, Eq, Hash)]
pub struct MarketDataArg {
    pub exchange: String,
    pub market_type: String,
    pub symbol: String,
    pub msg_type: String,
}

impl View for MarketDataArg {
    /// (exchange, market type, symbol, message type)
    type V = (Seq<char>, Seq<char>, Seq<char>, Seq<char>);

    open spec fn view(&self) -> Self::V {
        (self.exchange@, self.market_type@, self.symbol@, self.msg_type@)
    }
}

/// The channel name of a market-data stream:
/// `{exchange}_{market_type}_{name}_{symbol}` where `name` is the message type
/// before the first `@`, followed by `_{period}` when the message type has a
/// part after that `@` (only that part, up to a further `@`).
pub open spec fn market_arg_name(a: (Seq<char>, Seq<char>, Seq<char>, Seq<char>)) -> Seq<char> {
    let pieces = split_pieces(a.3, '@');
    let period = if pieces.len() > 1 {
        seq!['_'] + pieces[1]
    } else {
        Seq::<char>::empty()
    };
    a.0 + seq!['_'] + a.1 + seq!['_'] + pieces[0] + seq!['_'] + a.2 + period
}

impl MarketDataArg {
    /// The channel name of this stream (see [`market_arg_name`]).
    pub fn to_string(&self) -> (r: String)
        ensures
            r@ == market_arg_name(self@),
    {
        let mt = chars_of(self.msg_type.as_str());
        let pieces = split_chars(mt.as_slice(), '@');
        proof {
            lemma_split_pieces_props(mt@, '@');
        }
        let mut s = String::new();
        push_str(&mut s, self.exchange.as_str());
        push_char(&mut s, '_');
        push_str(&mut s, self.market_type.as_str());
        push_char(&mut s, '_');
        push_chars(&mut s, pieces[0].as_slice());
        push_char(&mut s, '_');
        push_str(&mut s, self.symbol.as_str());
        if pieces.len() > 1 {
            push_char(&mut s, '_');
            push_chars(&mut s, pieces[1].as_slice());
        }
        assert(s@ =~= market_arg_name(self@));
        s
    }

    /// Field-wise equality.
    pub fn equals(&self, other: &MarketDataArg) -> (r: bool)
        ensures
            r == (self@ == other@),
    {
        str_eq(self.exchange.as_str(), other.exchange.as_str())
            && str_eq(self.market_type.as_str(), other.market_type.as_str())
            && str_eq(self.symbol.as_str(), other.symbol.as_str())
            && str_eq(self.msg_type.as_str(), other.msg_type.as_str())
    }

    /// A copy with the same fields.
    pub fn duplicate(&self) -> (r: MarketDataArg)
        ensures
            r@ == self@,
    {
        MarketDataArg {
            exchange: self.exchange.clone(),
            market_type: self.market_type.clone(),
            symbol: self.symbol.clone(),
            msg_type: self.msg_type.clone(),
        }
    }
}

/// A request for a recorded market-data file.
#[derive(Debug, Clone)]
pub struct Params {
    pub exchange: String,
    pub market_type: String,
    pub msg_type: String,
    pub symbols: String,
    pub period: Option<String>,
    /// How many days back from today; today when absent.
    pub elapse: Option<i64>,
}

/// A command sent by a websocket client: an action such as `subscribe`,
/// `unsubscribe` or `history@{start}-{end}`, and the streams it concerns.
#[derive(Debug, Clone)]
pub struct Action {
    pub action: String,
    pub args: Vec<MarketDataArg>,
}

/// What a session asks of the subscription handler; `T` is the session's
/// reply channel.
#[derive(Debug)]
pub enum SocketAction<T> {
    Subscribe(String, T),
    Unsubscribe(Option<String>),
}

/// The period suffix of a file request: a present but empty period gives
/// `_`; any other period, or none, gives nothing.
pub open spec fn period_suffix(period: Option<Seq<char>>) -> Seq<char> {
    match period {
        Some(p) => if p.len() == 0 {
            seq!['_']
        } else {
            Seq::<char>::empty()
        },
        None => Seq::<char>::empty(),
    }
}

/// `{base}/{day}/{exchange}_{market_type}_{msg_type}_{symbols}{suffix}.csv`.
pub open spec fn market_data_path_spec(
    base: Seq<char>,
    day: Seq<char>,
    exchange: Seq<char>,
    market_type: Seq<char>,
    msg_type: Seq<char>,
    symbols: Seq<char>,
    period: Option<Seq<char>>,
) -> Seq<char> {
    base + seq!['/'] + day + seq!['/'] + exchange + seq!['_'] + market_type + seq!['_'] + msg_type
        + seq!['_'] + symbols + period_suffix(period) + seq!['.', 'c', 's', 'v']
}

/// The view of an optional string.
pub open spec fn opt_view(o: Option<String>) -> Option<Seq<char>> {
    match o {
        Some(s) => Some(s@),
        None => None,
    }
}

/// The path of the recorded file that `params` asks for, under `base_path`,
/// for the day `day` (formatted `%Y%m%d`).
pub fn market_data_path(base_path: &str, params: &Params, day: &str) -> (r: String)
    ensures
        r@ == market_data_path_spec(
            base_path@,
            day@,
            params.exchange@,
            params.market_type@,
            params.msg_type@,
            params.symbols@,
            opt_view(params.period),
        ),
{
    let mut s = String::new();
    push_str(&mut s, base_path);
    push_char(&mut s, '/');
    push_str(&mut s, day);
    push_char(&mut s, '/');
    push_str(&mut s, params.exchange.as_str());
    push_char(&mut s, '_');
    push_str(&mut s, params.market_type.as_str());
    push_char(&mut s, '_');
    push_str(&mut s, params.msg_type.as_str());
    push_char(&mut s, '_');
    push_str(&mut s, params.symbols.as_str());
    match &params.period {
        Some(p) => {
            if p.as_str().unicode_len() == 0 {
                push_char(&mut s, '_');
            }
        },
        None => {},
    }
    push_char(&mut s, '.');
    push_char(&mut s, 'c');
    push_char(&mut s, 's');
    push_char(&mut s, 'v');
    assert(s@ =~= market_data_path_spec(
        base_path@,
        day@,
        params.exchange@,
        params.market_type@,
        params.msg_type@,
        params.symbols@,
        opt_view(params.period),
    ));
    s
}

} // verus!
