//! One websocket session of the replay service: its id, what each client
//! frame asks for, the commands a client action becomes, and the walk over
//! the recorded days that a history request makes.
use vstd::prelude::*;

use crate::config::dynamic::{arg_views, ArgView};
use crate::json::{json_quote, json_string};
use crate::market::{market_arg_name, MarketDataArg};
use crate::text::{
    chars_eq, chars_of, format_i64, int_text, lemma_split_pieces_props, parse_i64, parse_i64_spec,
    push_str, split_chars, split_pieces,
};

verus! {

// ---------------------------------------------------------------------------
// Session ids
// ---------------------------------------------------------------------------

/// The source of session ids: the next id to hand out, and (as ghost
/// state) how many ids it has handed out.
pub struct SessionCounter {
    next: usize,
    handed: Ghost<nat>,
}

impl SessionCounter {
    /// The next id is the one after `handed` ids from the first id, 1.
    #[verifier::type_invariant]
    spec fn counts(self) -> bool {
        self.next == id_after(1, self.handed@)
    }

    /// A counter whose first id is 1.
    pub fn new() -> (r: SessionCounter)
        ensures
            r.next() == 1,
            r.handed() == 0,
    {
        SessionCounter { next: 1, handed: Ghost(0) }
    }

    /// The next id to hand out.
    pub closed spec fn next(self) -> usize {
        self.next
    }

    /// How many ids the counter has handed out.
    pub closed spec fn handed(self) -> nat {
        self.handed@
    }
}

/// The id after `n`, wrapping around at the top of `usize`.
pub open spec fn next_id(n: usize) -> usize {
    if n == usize::MAX {
        0
    } else {
        (n + 1) as usize
    }
}

/// Hands out the counter's next id and advances the counter by one,
/// wrapping around as an atomic `fetch_add` does: a new counter's `k`-th
/// id (counting from 0) is `id_after(1, k)`, that is `k + 1` (see
/// [`lemma_nth_session_id`]).
pub fn get_session_id(counter: &mut SessionCounter) -> (r: usize)
    ensures
        r == old(counter).next(),
        final(counter).next() == next_id(old(counter).next()),
        r == id_after(1, old(counter).handed()),
        final(counter).handed() == old(counter).handed() + 1,
{
    proof {
        use_type_invariant(&*counter);
    }
    let r = counter.next;
    let ghost h = counter.handed@;
    *counter = SessionCounter { next: counter.next.wrapping_add(1), handed: Ghost(h + 1) };
    r
}

/// Two ids handed out one after the other differ.
pub proof fn lemma_session_ids_differ(n: usize)
    ensures
        next_id(n) != n,
{
}

/// The counter's next id after `k` ids were handed out from `start`.
pub open spec fn id_after(start: usize, k: nat) -> usize
    decreases k,
{
    if k == 0 {
        start
    } else {
        next_id(id_after(start, (k - 1) as nat))
    }
}

/// A new counter hands out `k + 1` as its `k`-th id (counting from 0)
/// while that fits in `usize`, and `0` right after `usize::MAX`.
pub proof fn lemma_nth_session_id(k: nat)
    requires
        k <= usize::MAX,
    ensures
        id_after(1, k) == if k < usize::MAX { (k + 1) as usize } else { 0usize },
    decreases k,
{
    if k > 0 {
        lemma_nth_session_id((k - 1) as nat);
    }
}

/// The first `usize::MAX + 1` ids a new counter hands out are pairwise
/// distinct: no two sessions share an id.
pub proof fn lemma_session_ids_distinct(i: nat, j: nat)
    requires
        i < j <= usize::MAX,
    ensures
        id_after(1, i) != id_after(1, j),
{
    lemma_nth_session_id(i);
    lemma_nth_session_id(j);
}

// ---------------------------------------------------------------------------
// Frames
// ---------------------------------------------------------------------------

/// The reply to a binary frame.
pub const BINARY_REJECTED: &'static str = "{\"msg\":\"Binary data is not accepted\"}";

/// A frame received from a websocket client.
pub enum WsFrame {
    Text(String),
    Binary,
    Ping,
    Pong,
    Close,
}

/// What a session does with a frame.
pub enum FrameAction {
    /// Handle the text as a client action.
    Handle(String),
    /// Send this reply and go on.
    Reject(String),
    /// Nothing to do.
    Ignore,
    /// End the session.
    Stop,
}

/// Text frames are client actions, binary frames are refused with a reply,
/// ping and pong are ignored, and a close frame ends the session.
pub fn handle_socket_frame(frame: WsFrame) -> (r: FrameAction)
    ensures
        match frame {
            WsFrame::Text(t) => r matches FrameAction::Handle(h) && h@ == t@,
            WsFrame::Binary => r matches FrameAction::Reject(m) && m@ == BINARY_REJECTED@,
            WsFrame::Ping => r is Ignore,
            WsFrame::Pong => r is Ignore,
            WsFrame::Close => r is Stop,
        },
{
    match frame {
        WsFrame::Text(t) => FrameAction::Handle(t),
        WsFrame::Binary => FrameAction::Reject(BINARY_REJECTED.to_owned()),
        WsFrame::Ping => FrameAction::Ignore,
        WsFrame::Pong => FrameAction::Ignore,
        WsFrame::Close => FrameAction::Stop,
    }
}

// ---------------------------------------------------------------------------
// Client actions
// ---------------------------------------------------------------------------

/// The reply to a history request whose range is refused.
pub const HISTORY_RANGE_ERROR: &'static str = "{\"code\":500,\"msg\":\"history time range error\"}";

/// The reply to an unknown action.
pub const UNKNOWN_ACTION: &'static str = "{\"code\":5001,\"msg\":\"action subscribe or unsubscribe\"}";

/// What a client action asks the session to do, in order.
pub enum WsCommand {
    /// Ask for the channel of this name.
    Subscribe(String),
    /// Drop the channel of this name, or every channel of the session.
    Unsubscribe(Option<String>),
    /// Send this reply to the client.
    Reply(String),
    /// Replay the recorded days from `start` (days back) while not before `end`.
    History(i64, i64),
}

/// The abstract form of a [`WsCommand`].
pub enum CommandSpec {
    Subscribe(Seq<char>),
    Unsubscribe(Option<Seq<char>>),
    Reply(Seq<char>),
    History(int, int),
}

impl View for WsCommand {
    type V = CommandSpec;

    open spec fn view(&self) -> CommandSpec {
        match self {
            WsCommand::Subscribe(s) => CommandSpec::Subscribe(s@),
            WsCommand::Unsubscribe(o) => CommandSpec::Unsubscribe(
                match o {
                    Some(s) => Some(s@),
                    None => None,
                },
            ),
            WsCommand::Reply(s) => CommandSpec::Reply(s@),
            WsCommand::History(a, b) => CommandSpec::History(*a as int, *b as int),
        }
    }
}

/// The views of a sequence of commands.
pub open spec fn command_views(s: Seq<WsCommand>) -> Seq<CommandSpec> {
    s.map_values(|c: WsCommand| c@)
}

/// The commands of a client action `action` about the streams `args`, or
/// `None` when a history range does not parse.
///
/// The action's name is its text before the first `@`. `subscribe` asks for
/// each stream's channel; `unsubscribe` drops each stream's channel, or all
/// channels when no stream is given; `history@{start}-{end}` replays days
/// `start` down to `end` (range `0-0` when absent; a missing end is the
/// start), after a refusal reply when `0 <= end` and `start < end`. Any other
/// name gets the unknown-action reply.
pub open spec fn json_handle_spec(action: Seq<char>, args: Seq<ArgView>) -> Option<Seq<CommandSpec>> {
    let pieces = split_pieces(action, '@');
    let name = pieces[0];
    if name == "subscribe"@ {
        Some(args.map_values(|a: ArgView| CommandSpec::Subscribe(market_arg_name(a))))
    } else if name == "unsubscribe"@ {
        if args.len() == 0 {
            Some(seq![CommandSpec::Unsubscribe(None)])
        } else {
            Some(args.map_values(|a: ArgView| CommandSpec::Unsubscribe(Some(market_arg_name(a)))))
        }
    } else if name == "history"@ {
        let range = if pieces.len() > 1 {
            pieces[1]
        } else {
            "0-0"@
        };
        let rp = split_pieces(range, '-');
        let st = rp[0];
        let et = if rp.len() > 1 {
            rp[1]
        } else {
            st
        };
        match (parse_i64_spec(st), parse_i64_spec(et)) {
            (Some(s), Some(e)) => Some(
                (if 0 <= e && s < e {
                    seq![CommandSpec::Reply(HISTORY_RANGE_ERROR@)]
                } else {
                    Seq::<CommandSpec>::empty()
                }) + seq![CommandSpec::History(s, e)],
            ),
            _ => None,
        }
    } else {
        Some(seq![CommandSpec::Reply(UNKNOWN_ACTION@)])
    }
}

/// An `unsubscribe` action names each listed stream's channel once, in
/// order, and drops all of the session's channels (`Unsubscribe(None)`)
/// only when no stream is listed.
pub proof fn lemma_unsubscribe_commands(action: Seq<char>, args: Seq<ArgView>)
    requires
        split_pieces(action, '@')[0] == "unsubscribe"@,
    ensures
        json_handle_spec(action, args) is Some,
        args.len() == 0 ==> json_handle_spec(action, args)->0 == seq![CommandSpec::Unsubscribe(None)],
        args.len() > 0 ==> {
            let cmds = json_handle_spec(action, args)->0;
            &&& cmds.len() == args.len()
            &&& forall|i: int| 0 <= i < args.len() ==> #[trigger] cmds[i] == CommandSpec::Unsubscribe(Some(market_arg_name(args[i])))
            &&& forall|i: int| 0 <= i < cmds.len() ==> #[trigger] cmds[i] != CommandSpec::Unsubscribe(None)
        },
{
    reveal_strlit("unsubscribe");
    reveal_strlit("subscribe");
    assert("unsubscribe"@ != "subscribe"@) by {
        assert("unsubscribe"@.len() != "subscribe"@.len());
    }
}

/// A `subscribe` action asks for each listed stream's channel once, in
/// order, and for nothing else.
pub proof fn lemma_subscribe_commands(action: Seq<char>, args: Seq<ArgView>)
    requires
        split_pieces(action, '@')[0] == "subscribe"@,
    ensures
        json_handle_spec(action, args) is Some,
        json_handle_spec(action, args)->0.len() == args.len(),
        forall|i: int| 0 <= i < args.len() ==> #[trigger] json_handle_spec(action, args)->0[i]
            == CommandSpec::Subscribe(market_arg_name(args[i])),
{
}

/// The commands of a client action (see [`json_handle_spec`]); `None` when
/// the history range does not parse.
pub fn json_handle(action: &str, args: &Vec<MarketDataArg>) -> (r: Option<Vec<WsCommand>>)
    ensures
        r matches Some(v) ==> json_handle_spec(action@, arg_views(args@)) == Some(command_views(v@)),
        r is None ==> json_handle_spec(action@, arg_views(args@)) is None,
{
    let av = chars_of(action);
    let pieces = split_chars(av.as_slice(), '@');
    proof {
        lemma_split_pieces_props(action@, '@');
    }
    let name = &pieces[0];
    let sub = chars_of("subscribe");
    let unsub = chars_of("unsubscribe");
    let hist = chars_of("history");
    let ghost avs = arg_views(args@);
    if chars_eq(name.as_slice(), sub.as_slice()) {
        let mut out: Vec<WsCommand> = Vec::new();
        let mut i: usize = 0;
        while i < args.len()
            invariant
                i <= args@.len(),
                avs == arg_views(args@),
                command_views(out@) == avs.take(i as int).map_values(|a: ArgView| CommandSpec::Subscribe(market_arg_name(a))),
            decreases args@.len() - i,
        {
            let n = args[i].to_string();
            let ghost before = command_views(out@);
            out.push(WsCommand::Subscribe(n));
            assert(command_views(out@) =~= before.push(CommandSpec::Subscribe(market_arg_name(avs[i as int]))));
            i = i + 1;
            assert(avs.take(i as int).map_values(|a: ArgView| CommandSpec::Subscribe(market_arg_name(a)))
                =~= avs.take(i - 1).map_values(|a: ArgView| CommandSpec::Subscribe(market_arg_name(a))).push(
                CommandSpec::Subscribe(market_arg_name(avs[i - 1]))));
        }
        assert(avs.take(i as int) =~= avs);
        Some(out)
    } else if chars_eq(name.as_slice(), unsub.as_slice()) {
        let mut out: Vec<WsCommand> = Vec::new();
        if args.len() == 0 {
            out.push(WsCommand::Unsubscribe(None));
            assert(command_views(out@) =~= seq![CommandSpec::Unsubscribe(None)]);
            return Some(out);
        }
        let mut i: usize = 0;
        while i < args.len()
            invariant
                i <= args@.len(),
                avs == arg_views(args@),
                command_views(out@) == avs.take(i as int).map_values(|a: ArgView| CommandSpec::Unsubscribe(Some(market_arg_name(a)))),
            decreases args@.len() - i,
        {
            let n = args[i].to_string();
            let ghost before = command_views(out@);
            out.push(WsCommand::Unsubscribe(Some(n)));
            assert(command_views(out@) =~= before.push(CommandSpec::Unsubscribe(Some(market_arg_name(avs[i as int])))));
            i = i + 1;
            assert(avs.take(i as int).map_values(|a: ArgView| CommandSpec::Unsubscribe(Some(market_arg_name(a))))
                =~= avs.take(i - 1).map_values(|a: ArgView| CommandSpec::Unsubscribe(Some(market_arg_name(a)))).push(
                CommandSpec::Unsubscribe(Some(market_arg_name(avs[i - 1])))));
        }
        assert(avs.take(i as int) =~= avs);
        Some(out)
    } else if chars_eq(name.as_slice(), hist.as_slice()) {
        let range: Vec<char> = if pieces.len() > 1 {
            pieces[1].clone()
        } else {
            chars_of("0-0")
        };
        let rp = split_chars(range.as_slice(), '-');
        proof {
            lemma_split_pieces_props(range@, '-');
        }
        let st = &rp[0];
        let start = match parse_i64(st.as_slice()) {
            Some(v) => v,
            None => {
                return None;
            },
        };
        let end = if rp.len() > 1 {
            match parse_i64(rp[1].as_slice()) {
                Some(v) => v,
                None => {
                    return None;
                },
            }
        } else {
            start
        };
        let mut out: Vec<WsCommand> = Vec::new();
        if 0 <= end && start < end {
            out.push(WsCommand::Reply(HISTORY_RANGE_ERROR.to_owned()));
        }
        out.push(WsCommand::History(start, end));
        assert(command_views(out@) =~= json_handle_spec(action@, avs)->0);
        Some(out)
    } else {
        let mut out: Vec<WsCommand> = Vec::new();
        out.push(WsCommand::Reply(UNKNOWN_ACTION.to_owned()));
        assert(command_views(out@) =~= seq![CommandSpec::Reply(UNKNOWN_ACTION@)]);
        Some(out)
    }
}

// ---------------------------------------------------------------------------
// History
// ---------------------------------------------------------------------------

/// The next step of a history replay.
pub enum HistoryStep {
    /// Read the day `day` (days back) of the stream at this index.
    Read(usize, i64),
    /// Nothing more to read.
    Finished,
}

/// The first step of replaying days `start` down to `end` (days back) of
/// each of `n_args` streams: none when `start < end` or there is no stream.
pub fn history_first(n_args: usize, start: i64, end: i64) -> (r: HistoryStep)
    ensures
        (n_args > 0 && start >= end) ==> (r matches HistoryStep::Read(a, d) && a == 0 && d == start),
        !(n_args > 0 && start >= end) ==> r is Finished,
{
    if n_args > 0 && start >= end {
        HistoryStep::Read(0, start)
    } else {
        HistoryStep::Finished
    }
}

/// The step after reading day `day` of stream `arg`, when replaying days
/// `start` down to `end`: when that day's file was found and `day` is not
/// yet `end`, the day after it towards `end` (one day less back) of the
/// same stream; otherwise day `start` of the next stream, or the end when it
/// was the last one.
pub fn history_handle(n_args: usize, start: i64, end: i64, arg: usize, day: i64, found: bool) -> (r: HistoryStep)
    requires
        arg < n_args,
    ensures
        (found && day > end) ==> (r matches HistoryStep::Read(a, d) && a == arg && d == day - 1),
        !(found && day > end) && arg + 1 < n_args ==> (r matches HistoryStep::Read(a, d) && a == arg + 1 && d == start),
        !(found && day > end) && arg + 1 >= n_args ==> r is Finished,
{
    if found && day > end {
        HistoryStep::Read(arg, day - 1)
    } else if arg + 1 < n_args {
        HistoryStep::Read(arg + 1, start)
    } else {
        HistoryStep::Finished
    }
}

/// `{"code":5002,"msg":"{name} not {day} day history"}`.
pub open spec fn history_missing_spec(name: Seq<char>, day: int) -> Seq<char> {
    "{\"code\":5002,\"msg\":"@ + json_string(name + " not "@ + int_text(day) + " day history"@) + "}"@
}

/// The reply when the stream `arg` has no recorded file for `day`.
pub fn history_missing_json(arg: &MarketDataArg, day: i64) -> (r: String)
    ensures
        r@ == history_missing_spec(market_arg_name(arg@), day as int),
{
    let mut msg = arg.to_string();
    push_str(&mut msg, " not ");
    let d = format_i64(day);
    push_str(&mut msg, d.as_str());
    push_str(&mut msg, " day history");
    let mut s = String::new();
    push_str(&mut s, "{\"code\":5002,\"msg\":");
    let q = json_quote(msg.as_str());
    push_str(&mut s, q.as_str());
    push_str(&mut s, "}");
    s
}

} // verus!
