//! Names of market-data channels and the IPC addresses they are published at.
use vstd::prelude::*;

use crate::market::market_arg_name;
use crate::text::{chars_of, has_char, lemma_split_cons, lemma_split_no_sep, push_char, push_chars, push_str};

verus! {

/// `ipc:///tmp/{name}.ipc`.
pub open spec fn ipc_url_spec(name: Seq<char>) -> Seq<char> {
    "ipc:///tmp/"@ + name + ".ipc"@
}

/// The IPC address at which the channel `name` is published.
pub fn ipc_url(name: &str) -> (r: String)
    ensures
        r@ == ipc_url_spec(name@),
{
    let mut s = String::new();
    push_str(&mut s, "ipc:///tmp/");
    push_str(&mut s, name);
    push_str(&mut s, ".ipc");
    s
}

/// `s` with its first `n` occurrences of `from` replaced by `to`.
pub open spec fn replace_first_n(s: Seq<char>, from: char, to: char, n: nat) -> Seq<char>
    decreases s.len(),
{
    if s.len() == 0 {
        s
    } else if s[0] == from && n > 0 {
        seq![to] + replace_first_n(s.drop_first(), from, to, (n - 1) as nat)
    } else {
        seq![s[0]] + replace_first_n(s.drop_first(), from, to, n)
    }
}

/// `str::replacen(from, to, n)` for single characters.
pub fn replacen_char(s: &str, from: char, to: char, n: usize) -> (r: String)
    ensures
        r@ == replace_first_n(s@, from, to, n as nat),
{
    let v = chars_of(s);
    let mut out = String::new();
    let mut left: usize = n;
    let mut i: usize = 0;
    assert(v@.skip(0) =~= v@);
    assert(out@ + replace_first_n(v@, from, to, n as nat) =~= replace_first_n(v@, from, to, n as nat));
    while i < v.len()
        invariant
            i <= v@.len(),
            v@ == s@,
            left <= n,
            out@ + replace_first_n(v@.skip(i as int), from, to, left as nat) == replace_first_n(s@, from, to, n as nat),
        decreases v@.len() - i,
    {
        let c = v[i];
        let ghost rest = v@.skip(i as int);
        assert(rest.drop_first() =~= v@.skip(i + 1));
        assert(rest[0] == c);
        if c == from && left > 0 {
            push_char(&mut out, to);
            left = left - 1;
        } else {
            push_char(&mut out, c);
        }
        i = i + 1;
    }
    assert(v@.skip(i as int) =~= Seq::<char>::empty());
    assert(out@ =~= out@ + Seq::<char>::empty());
    out
}

/// The address at which the integration service publishes the channel
/// `name`: its first three `/` become `-` (as in `BTC/USDT`), inside
/// `ipc:///tmp/{..}.ipc`.
pub fn publish_address(name: &str) -> (r: String)
    ensures
        r@ == ipc_url_spec(replace_first_n(name@, '/', '-', 3)),
{
    let file_name = replacen_char(name, '/', '-', 3);
    ipc_url(file_name.as_str())
}

/// The view of an optional string slice.
pub open spec fn opt_view(v: Option<&str>) -> Option<Seq<char>> {
    match v {
        Some(s) => Some(s@),
        None => None,
    }
}

/// `_{p}` for a present part, nothing otherwise.
pub open spec fn opt_suffix(v: Option<Seq<char>>) -> Seq<char> {
    match v {
        Some(p) => seq!['_'] + p,
        None => Seq::empty(),
    }
}

/// `{exchange}_{market_type}_{msg_type}`, then `_{period}` when given: the
/// channel a publisher serves and a client subscribes to.
pub fn ipc_name(exchange: &str, market_type: &str, msg_type: &str, period: Option<&str>) -> (r: String)
    ensures
        r@ == exchange@ + seq!['_'] + market_type@ + seq!['_'] + msg_type@ + opt_suffix(opt_view(period)),
{
    let mut s = String::new();
    push_str(&mut s, exchange);
    push_char(&mut s, '_');
    push_str(&mut s, market_type);
    push_char(&mut s, '_');
    push_str(&mut s, msg_type);
    match period {
        Some(p) => {
            push_char(&mut s, '_');
            push_str(&mut s, p);
        },
        None => {},
    }
    assert(s@ =~= exchange@ + seq!['_'] + market_type@ + seq!['_'] + msg_type@ + opt_suffix(opt_view(period)));
    s
}

/// `{exchange}_{market_type}_{msg_type}_{symbol}`, then `_{period}` when
/// given: the channel a recorder listens to.
pub fn record_ipc_name(exchange: &str, market_type: &str, msg_type: &str, symbol: &str, period: Option<&str>) -> (r: String)
    ensures
        r@ == exchange@ + seq!['_'] + market_type@ + seq!['_'] + msg_type@ + seq!['_'] + symbol@
            + opt_suffix(opt_view(period)),
{
    let mut s = String::new();
    push_str(&mut s, exchange);
    push_char(&mut s, '_');
    push_str(&mut s, market_type);
    push_char(&mut s, '_');
    push_str(&mut s, msg_type);
    push_char(&mut s, '_');
    push_str(&mut s, symbol);
    match period {
        Some(p) => {
            push_char(&mut s, '_');
            push_str(&mut s, p);
        },
        None => {},
    }
    assert(s@ =~= exchange@ + seq!['_'] + market_type@ + seq!['_'] + msg_type@ + seq!['_'] + symbol@
        + opt_suffix(opt_view(period)));
    s
}

/// `{exchange}_{market_type}_{msg_type}_{symbol}`, then `_{period}` when the
/// period is not empty.
pub open spec fn writer_key_spec(
    exchange: Seq<char>,
    market_type: Seq<char>,
    msg_type: Seq<char>,
    symbol: Seq<char>,
    period: Seq<char>,
) -> Seq<char> {
    exchange + seq!['_'] + market_type + seq!['_'] + msg_type + seq!['_'] + symbol
        + (if period.len() == 0 { Seq::<char>::empty() } else { seq!['_'] + period })
}

/// The channel of one symbol that the integration service writes (see
/// [`writer_key_spec`]).
pub fn writer_key(exchange: &str, market_type: &str, msg_type: &str, symbol: &str, period: &str) -> (r: String)
    ensures
        r@ == writer_key_spec(exchange@, market_type@, msg_type@, symbol@, period@),
{
    let pv = chars_of(period);
    let mut s = String::new();
    push_str(&mut s, exchange);
    push_char(&mut s, '_');
    push_str(&mut s, market_type);
    push_char(&mut s, '_');
    push_str(&mut s, msg_type);
    push_char(&mut s, '_');
    push_str(&mut s, symbol);
    if pv.len() > 0 {
        push_char(&mut s, '_');
    }
    push_chars(&mut s, pv.as_slice());
    assert(s@ =~= exchange@ + seq!['_'] + market_type@ + seq!['_'] + msg_type@ + seq!['_'] + symbol@
        + (if period@.len() == 0 { Seq::<char>::empty() } else { seq!['_'] + period@ }));
    s
}

/// A name without `/` is published at its plain IPC address.
pub proof fn lemma_publish_address_plain(name: Seq<char>, n: nat)
    requires
        !has_char(name, '/'),
    ensures
        replace_first_n(name, '/', '-', n) == name,
    decreases name.len(),
{
    if name.len() > 0 {
        assert(!has_char(name.drop_first(), '/')) by {
            if has_char(name.drop_first(), '/') {
                let j = choose|j: int| 0 <= j < name.drop_first().len() && name.drop_first()[j] == '/';
                assert(name[j + 1] == '/');
            }
        }
        assert(name[0] != '/');
        lemma_publish_address_plain(name.drop_first(), n);
        assert(seq![name[0]] + name.drop_first() =~= name);
    }
}

/// The channel that a websocket client names by a stream argument is the
/// channel the recorder listens to for the same stream: the message type
/// `{t}@{p}` of the argument stands for message type `t` with period `p`.
pub proof fn lemma_arg_name_is_record_channel(
    exchange: Seq<char>,
    market_type: Seq<char>,
    symbol: Seq<char>,
    msg_type: Seq<char>,
    period: Option<Seq<char>>,
)
    requires
        !has_char(msg_type, '@'),
        period matches Some(p) ==> !has_char(p, '@'),
    ensures
        market_arg_name(
            (
                exchange,
                market_type,
                symbol,
                match period {
                    Some(p) => msg_type + seq!['@'] + p,
                    None => msg_type,
                },
            ),
        ) == exchange + seq!['_'] + market_type + seq!['_'] + msg_type + seq!['_'] + symbol + opt_suffix(period),
{
    match period {
        Some(p) => {
            lemma_split_cons(msg_type, '@', p);
            lemma_split_no_sep(p, '@');
            assert(seq![msg_type] + seq![p] =~= seq![msg_type, p]);
        },
        None => {
            lemma_split_no_sep(msg_type, '@');
        },
    }
}

} // verus!
