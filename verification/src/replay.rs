//! The replay service's subscription book: which session follows which
//! channel, and how subscribe, unsubscribe and incoming data change it.
//!
//! `T` is a session's reply channel; the book only stores and hands back
//! channels, the caller sends on them.
use vstd::prelude::*;

use crate::assoc::{
    assoc_map, distinct_keys, lemma_assoc_absent, lemma_assoc_dom, lemma_assoc_index,
    lemma_assoc_push, lemma_assoc_remove, lemma_assoc_update,
};
use crate::config::dynamic::lemma_push_contains;
use crate::json::{base64_encode, base64_standard, json_quote, json_string};
use crate::market::SocketAction;
use crate::text::{contains_str, push_str, str_eq, str_views};
use std::collections::HashMap;

verus! {

broadcast use vstd::std_specs::hash::group_hash_axioms;

/// The reply to an action that succeeded.
pub const SUCCESS_REPLY: &'static str = "{\"state\": \"success\",\"code\": 200,\"message\": \"\"}";

/// The reply to an action that failed.
pub const FAILURE_REPLY: &'static str = "{\"state\": \"failure\",\"code\": 500,\"message\": \"server error\"}";

/// `{"messageType":<msg_type>,"payload":<Base64 of data>}`.
pub open spec fn payload_json_spec(msg_type: Seq<char>, data: Seq<u8>) -> Seq<char> {
    "{\"messageType\":"@ + json_string(msg_type) + ",\"payload\":"@ + json_string(base64_standard(data))
        + "}"@
}

/// The message that carries one data item of a channel to a session: its
/// message type and its bytes in Base64, as a JSON object.
pub fn payload_json(msg_type: &str, data: &[u8]) -> (r: String)
    ensures
        r@ == payload_json_spec(msg_type@, data@),
{
    let b = base64_encode(data);
    let mut s = String::new();
    push_str(&mut s, "{\"messageType\":");
    let q = json_quote(msg_type);
    push_str(&mut s, q.as_str());
    push_str(&mut s, ",\"payload\":");
    let qb = json_quote(b.as_str());
    push_str(&mut s, qb.as_str());
    push_str(&mut s, "}");
    s
}

/// The sessions' channels and the channels' sessions.
pub type Users = Map<usize, Set<Seq<char>>>;

/// The sessions that receive each channel.
pub type Subs = Map<Seq<char>, Set<usize>>;

/// A subscription of session `id` to `symbol` (see
/// [`SubscriptionBook::action_handle_subscribe`]): the books after it and
/// whether it succeeded.
pub open spec fn subscribe_spec(users: Users, subs: Subs, id: usize, symbol: Seq<char>) -> (Users, Subs, bool) {
    if users.dom().contains(id) && !users[id].contains(symbol) {
        (users, subs, false)
    } else {
        let users2 = if users.dom().contains(id) {
            users
        } else {
            users.insert(id, set![symbol])
        };
        if subs.dom().contains(symbol) {
            (users2, subs.insert(symbol, subs[symbol].insert(id)), true)
        } else {
            (users2, subs, false)
        }
    }
}

/// An unsubscription of session `id` from every channel (see
/// [`SubscriptionBook::action_handle_unsubscribe`]).
pub open spec fn unsubscribe_all_spec(users: Users, subs: Subs, id: usize) -> (Users, Subs, bool) {
    if users.dom().contains(id) {
        (users.remove(id), subs.remove_keys(users[id]), true)
    } else {
        (users, subs, false)
    }
}

/// A data item of channel `symbol` when the channel is not known yet (see
/// [`data_hander`]): the channel becomes known with no sessions.
pub open spec fn data_unknown_spec(subs: Subs, symbol: Seq<char>) -> Subs {
    subs.insert(symbol, Set::empty())
}

/// Once data of a channel has arrived, a new session that subscribes to it
/// succeeds, is recorded with that channel, and becomes its only receiver
/// when it had none.
pub proof fn lemma_data_then_subscribe(users: Users, subs: Subs, id: usize, symbol: Seq<char>)
    requires
        !users.dom().contains(id),
        !subs.dom().contains(symbol),
    ensures
        subscribe_spec(users, data_unknown_spec(subs, symbol), id, symbol)
            == (users.insert(id, set![symbol]), subs.insert(symbol, set![id]), true),
{
    assert(Set::<usize>::empty().insert(id) =~= set![id]);
}

/// A session that unsubscribes from everything is forgotten, and none of
/// the channels it followed stays known.
pub proof fn lemma_unsubscribe_all_forgets(users: Users, subs: Subs, id: usize)
    requires
        users.dom().contains(id),
    ensures
        !unsubscribe_all_spec(users, subs, id).0.dom().contains(id),
        forall|s: Seq<char>| #[trigger] users[id].contains(s) ==> !unsubscribe_all_spec(users, subs, id).1.dom().contains(s),
        unsubscribe_all_spec(users, subs, id).2,
{
}

/// A new session that subscribes to a known channel succeeds and lists
/// it; subscribing to it again succeeds too and changes no session's
/// channels; and closing the session (unsubscribing from everything)
/// forgets the session and drops the channel.
pub proof fn lemma_resubscribe_then_close(users: Users, subs: Subs, id: usize, symbol: Seq<char>)
    requires
        !users.dom().contains(id),
        subs.dom().contains(symbol),
    ensures
        ({
            let (u1, s1, ok1) = subscribe_spec(users, subs, id, symbol);
            let (u2, s2, ok2) = subscribe_spec(u1, s1, id, symbol);
            let (u3, s3, ok3) = unsubscribe_all_spec(u2, s2, id);
            &&& ok1 && ok2 && ok3
            &&& u1.dom().contains(id) && u1[id].contains(symbol)
            &&& u2 == u1
            &&& s2.dom().contains(symbol) && s2[symbol].contains(id)
            &&& !u3.dom().contains(id)
            &&& !s3.dom().contains(symbol)
        }),
{
}

/// The session ids of a sequence of (id, channel) pairs.
pub open spec fn session_ids<T>(s: Seq<(usize, T)>) -> Seq<usize> {
    s.map_values(|p: (usize, T)| p.0)
}

/// A session: its reply channel and the channels it asked for.
pub struct UserEntry<T> {
    tx: T,
    symbols: Vec<String>,
}

/// A channel and the sessions (id and reply channel) that receive its data.
pub struct SymbolEntry<T> {
    symbol: String,
    sessions: Vec<(usize, T)>,
}

/// The sessions, by id, and the channels they follow.
pub struct SubscriptionBook<T> {
    users: HashMap<usize, UserEntry<T>>,
    subs: Vec<SymbolEntry<T>>,
}

/// The view of a channel entry: name and the set of its session ids.
pub closed spec fn sub_view<T>(e: SymbolEntry<T>) -> (Seq<char>, Set<usize>) {
    (e.symbol@, session_ids(e.sessions@).to_set())
}

impl<T> SubscriptionBook<T> {
    /// The channel entries as (name, session ids).
    pub closed spec fn sub_entries(self) -> Seq<(Seq<char>, Set<usize>)> {
        self.subs@.map_values(|e: SymbolEntry<T>| sub_view(e))
    }

    /// The channels each known session asked for.
    pub closed spec fn users(self) -> Map<usize, Set<Seq<char>>> {
        self.users@.map_values(|u: UserEntry<T>| str_views(u.symbols@).to_set())
    }

    /// The sessions that receive each known channel.
    pub closed spec fn subs(self) -> Map<Seq<char>, Set<usize>> {
        assoc_map(self.sub_entries())
    }

    /// The reply channel of each known session.
    pub closed spec fn senders(self) -> Map<usize, T> {
        self.users@.map_values(|u: UserEntry<T>| u.tx)
    }

    /// The channel entries as (name, reply channel of each session).
    pub closed spec fn channel_entries(self) -> Seq<(Seq<char>, Map<usize, T>)> {
        self.subs@.map_values(|e: SymbolEntry<T>| (e.symbol@, assoc_map(e.sessions@)))
    }

    /// For each known channel, the reply channel of each session that
    /// receives it.
    pub closed spec fn channels(self) -> Map<Seq<char>, Map<usize, T>> {
        assoc_map(self.channel_entries())
    }

    /// The channel view has the same keys, in the same order, as the
    /// channel entries.
    proof fn lemma_entry_keys(self)
        requires
            self.wf(),
        ensures
            distinct_keys(self.channel_entries()),
            forall|i: int| 0 <= i < self.subs@.len() ==> #[trigger] self.channel_entries()[i] == (self.subs@[i].symbol@, assoc_map(self.subs@[i].sessions@)),
            forall|i: int| 0 <= i < self.subs@.len() ==> #[trigger] self.sub_entries()[i] == sub_view(self.subs@[i]),
            self.channel_entries().len() == self.subs@.len(),
    {
        assert forall|i: int, j: int| 0 <= i < self.channel_entries().len() && 0 <= j < self.channel_entries().len() && i != j
            implies self.channel_entries()[i].0 != self.channel_entries()[j].0 by {
            assert(self.sub_entries()[i] == sub_view(self.subs@[i]));
            assert(self.sub_entries()[j] == sub_view(self.subs@[j]));
        }
    }

    /// Each channel occurs once and lists a session at most once.
    pub closed spec fn wf(self) -> bool {
        &&& distinct_keys(self.sub_entries())
        &&& forall|i: int| 0 <= i < self.subs@.len() ==> session_ids(#[trigger] self.subs@[i].sessions@).no_duplicates()
    }

    /// A book with no sessions and no channels.
    pub fn new() -> (r: Self)
        ensures
            r.wf(),
            r.users() == Map::<usize, Set<Seq<char>>>::empty(),
            r.subs() == Map::<Seq<char>, Set<usize>>::empty(),
            r.senders() == Map::<usize, T>::empty(),
            r.channels() == Map::<Seq<char>, Map<usize, T>>::empty(),
    {
        let r = SubscriptionBook { users: HashMap::new(), subs: Vec::new() };
        assert(r.users() =~= Map::<usize, Set<Seq<char>>>::empty());
        assert(r.senders() =~= Map::<usize, T>::empty());
        assert(r.sub_entries() =~= Seq::<(Seq<char>, Set<usize>)>::empty());
        assert(r.channel_entries() =~= Seq::<(Seq<char>, Map<usize, T>)>::empty());
        r
    }

    fn find_sub(&self, symbol: &str) -> (r: Option<usize>)
        requires
            self.wf(),
        ensures
            r matches Some(i) ==> i < self.subs@.len() && self.subs@[i as int].symbol@ == symbol@
                && self.subs().dom().contains(symbol@)
                && self.subs()[symbol@] == session_ids(self.subs@[i as int].sessions@).to_set(),
            r is None ==> !self.subs().dom().contains(symbol@),
    {
        let mut i: usize = 0;
        while i < self.subs.len()
            invariant
                self.wf(),
                i <= self.subs@.len(),
                forall|j: int| 0 <= j < i ==> self.subs@[j].symbol@ != symbol@,
            decreases self.subs@.len() - i,
        {
            if str_eq(self.subs[i].symbol.as_str(), symbol) {
                proof {
                    assert(self.sub_entries()[i as int] == sub_view(self.subs@[i as int]));
                    lemma_assoc_index(self.sub_entries(), i as int);
                }
                return Some(i);
            }
            i = i + 1;
        }
        proof {
            assert forall|j: int| 0 <= j < self.sub_entries().len() implies self.sub_entries()[j].0 != symbol@ by {
                assert(self.sub_entries()[j] == sub_view(self.subs@[j]));
            }
            lemma_assoc_absent(self.sub_entries(), symbol@);
        }
        None
    }

    /// Whether the session `id` is known.
    pub fn has_user(&self, id: usize) -> (r: bool)
        requires
            self.wf(),
        ensures
            r == self.users().dom().contains(id),
    {
        self.users.contains_key(&id)
    }

    /// The reply channel of session `id`, if the session is known.
    pub fn user_sender(&self, id: usize) -> (r: Option<&T>)
        requires
            self.wf(),
        ensures
            r is Some <==> self.users().dom().contains(id),
            r matches Some(t) ==> self.senders().dom().contains(id) && *t == self.senders()[id],
    {
        match self.users.get(&id) {
            Some(u) => Some(&u.tx),
            None => None,
        }
    }

    /// The sessions (id and reply channel) that receive `symbol`, if the
    /// channel is known.
    pub fn subscribers(&self, symbol: &str) -> (r: Option<&Vec<(usize, T)>>)
        requires
            self.wf(),
        ensures
            r is Some <==> self.subs().dom().contains(symbol@),
            r matches Some(v) ==> session_ids(v@).to_set() == self.subs()[symbol@]
                && session_ids(v@).no_duplicates(),
            r matches Some(v) ==> self.channels().dom().contains(symbol@)
                && assoc_map(v@) == self.channels()[symbol@],
    {
        match self.find_sub(symbol) {
            Some(i) => {
                proof {
                    self.lemma_entry_keys();
                    lemma_assoc_index(self.channel_entries(), i as int);
                }
                Some(&self.subs[i].sessions)
            },
            None => None,
        }
    }

    /// Removes the channel `symbol` with all its sessions; whether it was known.
    fn remove_symbol(&mut self, symbol: &str) -> (r: bool)
        requires
            old(self).wf(),
        ensures
            final(self).wf(),
            final(self).users@ == old(self).users@,
            final(self).users() == old(self).users(),
            final(self).subs() == old(self).subs().remove(symbol@),
            final(self).senders() == old(self).senders(),
            final(self).channels() == old(self).channels().remove(symbol@),
            r == old(self).subs().dom().contains(symbol@),
    {
        match self.find_sub(symbol) {
            Some(j) => {
                let ghost se = self.sub_entries();
                let ghost ce = self.channel_entries();
                let ghost old_subs = self.subs@;
                proof {
                    self.lemma_entry_keys();
                    assert(se[j as int] == sub_view(self.subs@[j as int]));
                    lemma_assoc_remove(se, j as int);
                    lemma_assoc_remove(ce, j as int);
                }
                self.subs.remove(j);
                assert(self.sub_entries() =~= se.remove(j as int));
                assert(self.channel_entries() =~= ce.remove(j as int));
                assert forall|i: int| 0 <= i < self.subs@.len() implies session_ids(#[trigger] self.subs@[i].sessions@).no_duplicates() by {
                    if i < j {
                        assert(self.subs@[i] == old_subs[i]);
                    } else {
                        assert(self.subs@[i] == old_subs[i + 1]);
                    }
                }
                true
            },
            None => {
                proof {
                    self.lemma_entry_keys();
                    assert forall|j: int| 0 <= j < self.channel_entries().len() implies self.channel_entries()[j].0 != symbol@ by {
                        assert(self.sub_entries()[j].0 == self.channel_entries()[j].0);
                        lemma_assoc_dom(self.sub_entries(), symbol@);
                    }
                    lemma_assoc_absent(self.channel_entries(), symbol@);
                }
                assert(self.subs().remove(symbol@) =~= self.subs());
                assert(self.channels().remove(symbol@) =~= self.channels());
                false
            },
        }
    }

    /// Handles a subscription of session `id` to `symbol`, with reply channel
    /// `tx`. A known session that does not already list `symbol` is refused
    /// and nothing changes. Otherwise an unknown session is recorded with
    /// `symbol` as its only channel; then, if the channel is known, the
    /// session joins it and the subscription succeeds, else it fails.
    pub fn action_handle_subscribe(&mut self, id: usize, symbol: &str, tx: T) -> (r: bool)
        where T: Clone,
        requires
            old(self).wf(),
        ensures
            final(self).wf(),
            old(self).users().dom().contains(id) && !old(self).users()[id].contains(symbol@) ==> {
                &&& !r
                &&& final(self).users() == old(self).users()
                &&& final(self).subs() == old(self).subs()
            },
            !(old(self).users().dom().contains(id) && !old(self).users()[id].contains(symbol@)) ==> {
                &&& final(self).users() == if old(self).users().dom().contains(id) {
                    old(self).users()
                } else {
                    old(self).users().insert(id, set![symbol@])
                }
                &&& r == old(self).subs().dom().contains(symbol@)
                &&& final(self).subs() == if r {
                    old(self).subs().insert(symbol@, old(self).subs()[symbol@].insert(id))
                } else {
                    old(self).subs()
                }
            },
            (final(self).users(), final(self).subs(), r) == subscribe_spec(old(self).users(), old(self).subs(), id, symbol@),
            old(self).users().dom().contains(id) && !old(self).users()[id].contains(symbol@) ==> {
                &&& final(self).senders() == old(self).senders()
                &&& final(self).channels() == old(self).channels()
            },
            !(old(self).users().dom().contains(id) && !old(self).users()[id].contains(symbol@)) ==> {
                &&& old(self).users().dom().contains(id) ==> final(self).senders() == old(self).senders()
                &&& !old(self).users().dom().contains(id) ==> {
                    &&& final(self).senders().dom().contains(id)
                    &&& cloned(tx, final(self).senders()[id])
                    &&& final(self).senders() == old(self).senders().insert(id, final(self).senders()[id])
                }
                &&& r ==> final(self).channels() == old(self).channels().insert(symbol@, old(self).channels()[symbol@].insert(id, tx))
                &&& !r ==> final(self).channels() == old(self).channels()
            },
    {
        let known = match self.users.get(&id) {
            Some(u) => {
                if !contains_str(&u.symbols, symbol) {
                    return false;
                }
                true
            },
            None => false,
        };
        if !known {
            let mut syms: Vec<String> = Vec::new();
            syms.push(symbol.to_owned());
            let c = tx.clone();
            let ghost u0 = self.users@;
            assert(str_views(syms@) =~= seq![symbol@]);
            assert forall|k: Seq<char>| seq![symbol@].to_set().contains(k) <==> set![symbol@].contains(k) by {
                if k == symbol@ {
                    assert(seq![symbol@][0] == k);
                }
            }
            assert(seq![symbol@].to_set() =~= set![symbol@]);
            let entry = UserEntry { tx: c, symbols: syms };
            self.users.insert(id, entry);
            assert(self.users@ == u0.insert(id, entry));
            assert(self.users() =~= old(self).users().insert(id, set![symbol@]));
            assert(self.senders() =~= old(self).senders().insert(id, c));
        }
        match self.find_sub(symbol) {
            None => false,
            Some(j) => {
                let ghost se = self.sub_entries();
                let ghost ce = self.channel_entries();
                let ghost old_subs = self.subs@;
                let ghost ids = session_ids(self.subs@[j as int].sessions@).to_set();
                let ghost chans = assoc_map(self.subs@[j as int].sessions@);
                proof {
                    self.lemma_entry_keys();
                    lemma_assoc_index(ce, j as int);
                }
                let mut e = self.subs.remove(j);
                upsert_session(&mut e.sessions, id, tx);
                proof {
                    assert(se[j as int] == sub_view(old_subs[j as int]));
                    lemma_assoc_update(se, j as int, ids.insert(id));
                    lemma_assoc_update(ce, j as int, chans.insert(id, tx));
                }
                self.subs.insert(j, e);
                assert(self.subs@ =~= old_subs.update(j as int, e));
                assert(self.sub_entries() =~= se.update(j as int, (se[j as int].0, ids.insert(id))));
                assert(self.channel_entries() =~= ce.update(j as int, (ce[j as int].0, chans.insert(id, tx))));
                assert forall|i: int| 0 <= i < self.subs@.len() implies session_ids(#[trigger] self.subs@[i].sessions@).no_duplicates() by {
                    if i != j {
                        assert(self.subs@[i] == old_subs[i]);
                    }
                }
                true
            },
        }
    }

    /// Handles an unsubscription of session `id`. With a channel name, that
    /// channel is dropped for all its sessions, and the action succeeds if it
    /// was known. Without one, every channel the session asked for is dropped
    /// and the session is forgotten, and the action succeeds if the session
    /// was known; an unknown session changes nothing.
    pub fn action_handle_unsubscribe(&mut self, id: usize, signal_name: Option<String>) -> (r: bool)
        requires
            old(self).wf(),
        ensures
            final(self).wf(),
            match signal_name {
                Some(name) => {
                    &&& r == old(self).subs().dom().contains(name@)
                    &&& final(self).subs() == old(self).subs().remove(name@)
                    &&& final(self).users() == old(self).users()
                },
                None => {
                    &&& r == old(self).users().dom().contains(id)
                    &&& r ==> final(self).subs() == old(self).subs().remove_keys(old(self).users()[id])
                    &&& r ==> final(self).users() == old(self).users().remove(id)
                    &&& !r ==> final(self).subs() == old(self).subs() && final(self).users() == old(self).users()
                    &&& (final(self).users(), final(self).subs(), r) == unsubscribe_all_spec(old(self).users(), old(self).subs(), id)
                },
            },
            match signal_name {
                Some(name) => {
                    &&& final(self).channels() == old(self).channels().remove(name@)
                    &&& final(self).senders() == old(self).senders()
                },
                None => {
                    &&& r ==> final(self).channels() == old(self).channels().remove_keys(old(self).users()[id])
                    &&& r ==> final(self).senders() == old(self).senders().remove(id)
                    &&& !r ==> final(self).channels() == old(self).channels() && final(self).senders() == old(self).senders()
                },
            },
    {
        match signal_name {
            Some(name) => self.remove_symbol(name.as_str()),
            None => {
                let ghost ou = self.users@;
                match self.users.remove(&id) {
                    None => {
                        assert(self.users@ =~= ou);
                        false
                    },
                    Some(entry) => {
                        assert(ou.contains_key(id) && ou[id] == entry);
                        let ghost s0 = self.subs();
                        let ghost c0 = self.channels();
                        let ghost sd0 = self.senders();
                        let ghost u0 = self.users();
                        assert(u0 =~= old(self).users().remove(id));
                        assert(sd0 =~= old(self).senders().remove(id));
                        let ghost syms = str_views(entry.symbols@);
                        assert(old(self).users()[id] == syms.to_set());
                        let n = entry.symbols.len();
                        let mut k: usize = 0;
                        assert(syms.take(0).to_set() =~= Set::<Seq<char>>::empty());
                        assert(s0.remove_keys(Set::empty()) =~= s0);
                        assert(c0.remove_keys(Set::empty()) =~= c0);
                        while k < n
                            invariant
                                self.wf(),
                                self.users() == u0,
                                self.senders() == sd0,
                                syms == str_views(entry.symbols@),
                                n == syms.len(),
                                k <= n,
                                self.subs() == s0.remove_keys(syms.take(k as int).to_set()),
                                self.channels() == c0.remove_keys(syms.take(k as int).to_set()),
                            decreases n - k,
                        {
                            let sym = entry.symbols[k].clone();
                            let ghost pre = syms.take(k as int);
                            assert(syms[k as int] == sym@);
                            self.remove_symbol(sym.as_str());
                            proof {
                                assert(syms.take(k + 1) =~= pre.push(sym@));
                                lemma_push_contains(pre, sym@);
                                assert forall|x: Seq<char>| syms.take(k + 1).to_set().contains(x) <==> pre.to_set().insert(sym@).contains(x) by {
                                    assert(syms.take(k + 1).contains(x) <==> (pre.contains(x) || x == sym@));
                                }
                                assert(syms.take(k + 1).to_set() =~= pre.to_set().insert(sym@));
                            }
                            k = k + 1;
                            assert(self.subs() =~= s0.remove_keys(syms.take(k as int).to_set()));
                            assert(self.channels() =~= c0.remove_keys(syms.take(k as int).to_set()));
                        }
                        assert(syms.take(n as int) =~= syms);
                        true
                    },
                }
            },
        }
    }

    /// Handles one action of session `id` and gives the reply for the
    /// session: success or failure of the action, or nothing when the
    /// session is not known once the action is done.
    pub fn action_handle(&mut self, id: usize, action: SocketAction<T>) -> (r: Option<String>)
        where T: Clone,
        requires
            old(self).wf(),
        ensures
            final(self).wf(),
            r is Some <==> final(self).users().dom().contains(id),
            r matches Some(m) ==> m@ == SUCCESS_REPLY@ || m@ == FAILURE_REPLY@,
            match action {
                SocketAction::Subscribe(name, _) => {
                    let refused = old(self).users().dom().contains(id) && !old(self).users()[id].contains(name@);
                    let ok = !refused && old(self).subs().dom().contains(name@);
                    &&& ok ==> final(self).subs() == old(self).subs().insert(name@, old(self).subs()[name@].insert(id))
                    &&& !ok ==> final(self).subs() == old(self).subs()
                    &&& r matches Some(m) ==> (m@ == SUCCESS_REPLY@ <==> ok)
                    &&& (refused || old(self).users().dom().contains(id)) ==> final(self).users() == old(self).users()
                    &&& !refused && !old(self).users().dom().contains(id) ==> final(self).users() == old(self).users().insert(id, set![name@])
                    &&& (final(self).users(), final(self).subs(), ok) == subscribe_spec(old(self).users(), old(self).subs(), id, name@)
                },
                SocketAction::Unsubscribe(name) => {
                    let ok = match name {
                        Some(n) => old(self).subs().dom().contains(n@),
                        None => old(self).users().dom().contains(id),
                    };
                    &&& r matches Some(m) ==> (m@ == SUCCESS_REPLY@ <==> ok)
                    &&& match name {
                        Some(n) => final(self).subs() == old(self).subs().remove(n@)
                            && final(self).users() == old(self).users(),
                        None => final(self).users() == old(self).users().remove(id)
                            && (ok ==> final(self).subs() == old(self).subs().remove_keys(old(self).users()[id])),
                    }
                },
            },
            match action {
                SocketAction::Subscribe(name, tx) => {
                    let refused = old(self).users().dom().contains(id) && !old(self).users()[id].contains(name@);
                    let ok = !refused && old(self).subs().dom().contains(name@);
                    &&& (refused || old(self).users().dom().contains(id)) ==> final(self).senders() == old(self).senders()
                    &&& !refused && !old(self).users().dom().contains(id) ==> {
                        &&& final(self).senders().dom().contains(id)
                        &&& cloned(tx, final(self).senders()[id])
                        &&& final(self).senders() == old(self).senders().insert(id, final(self).senders()[id])
                    }
                    &&& ok ==> final(self).channels() == old(self).channels().insert(name@, old(self).channels()[name@].insert(id, tx))
                    &&& !ok ==> final(self).channels() == old(self).channels()
                },
                SocketAction::Unsubscribe(name) => match name {
                    Some(n) => final(self).channels() == old(self).channels().remove(n@)
                        && final(self).senders() == old(self).senders(),
                    None => {
                        &&& old(self).users().dom().contains(id) ==> final(self).channels() == old(self).channels().remove_keys(old(self).users()[id])
                            && final(self).senders() == old(self).senders().remove(id)
                        &&& !old(self).users().dom().contains(id) ==> final(self).channels() == old(self).channels()
                            && final(self).senders() == old(self).senders()
                    },
                },
            },
    {
        let state = match action {
            SocketAction::Subscribe(signal_name, tx_json) => {
                self.action_handle_subscribe(id, signal_name.as_str(), tx_json)
            },
            SocketAction::Unsubscribe(signal_name) => {
                self.action_handle_unsubscribe(id, signal_name)
            },
        };
        proof {
            reveal_strlit("{\"state\": \"success\",\"code\": 200,\"message\": \"\"}");
            reveal_strlit("{\"state\": \"failure\",\"code\": 500,\"message\": \"server error\"}");
            assert(SUCCESS_REPLY@[11] == 's' && FAILURE_REPLY@[11] == 'f');
        }
        if !self.has_user(id) {
            return None;
        }
        if state {
            Some(SUCCESS_REPLY.to_owned())
        } else {
            Some(FAILURE_REPLY.to_owned())
        }
    }
}

/// Handles one data item of channel `symbol`: when the channel is known the
/// message for its sessions is returned (see [`payload_json`]) and the book
/// is unchanged; otherwise the channel becomes known with no sessions and
/// nothing is sent.
pub fn data_hander<T>(symbol: String, msg_type: &str, data: &[u8], sub_list: &mut SubscriptionBook<T>) -> (r: Option<String>)
    requires
        old(sub_list).wf(),
    ensures
        final(sub_list).wf(),
        final(sub_list).users() == old(sub_list).users(),
        r is Some <==> old(sub_list).subs().dom().contains(symbol@),
        r matches Some(m) ==> m@ == payload_json_spec(msg_type@, data@),
        r is Some ==> final(sub_list).subs() == old(sub_list).subs(),
        r is None ==> final(sub_list).subs() == data_unknown_spec(old(sub_list).subs(), symbol@),
        final(sub_list).senders() == old(sub_list).senders(),
        r is Some ==> final(sub_list).channels() == old(sub_list).channels(),
        r is None ==> final(sub_list).channels() == old(sub_list).channels().insert(symbol@, Map::<usize, T>::empty()),
{
    match sub_list.find_sub(symbol.as_str()) {
        Some(_) => Some(payload_json(msg_type, data)),
        None => {
            let ghost se = sub_list.sub_entries();
            let ghost ce = sub_list.channel_entries();
            let ghost old_subs = sub_list.subs@;
            let ghost sv = symbol@;
            proof {
                sub_list.lemma_entry_keys();
                assert forall|j: int| 0 <= j < se.len() implies se[j].0 != sv by {
                    lemma_assoc_dom(se, sv);
                }
                assert forall|j: int| 0 <= j < ce.len() implies ce[j].0 != sv by {
                    assert(se[j].0 == ce[j].0);
                }
                lemma_assoc_push(se, sv, Set::empty());
                lemma_assoc_push(ce, sv, Map::<usize, T>::empty());
            }
            let entry = SymbolEntry { symbol, sessions: Vec::new() };
            assert(session_ids(entry.sessions@).to_set() =~= Set::<usize>::empty());
            assert(assoc_map(entry.sessions@) =~= Map::<usize, T>::empty());
            sub_list.subs.push(entry);
            assert(sub_list.sub_entries() =~= se.push((sv, Set::empty())));
            assert(sub_list.channel_entries() =~= ce.push((sv, Map::<usize, T>::empty())));
            assert forall|i: int| 0 <= i < sub_list.subs@.len() implies session_ids(#[trigger] sub_list.subs@[i].sessions@).no_duplicates() by {
                if i < old_subs.len() {
                    assert(sub_list.subs@[i] == old_subs[i]);
                } else {
                    assert(session_ids(sub_list.subs@[i].sessions@) =~= Seq::<usize>::empty());
                }
            }
            None
        },
    }
}

/// Distinct session ids make the (id, channel) pairs an association list.
proof fn lemma_ids_distinct<T>(s: Seq<(usize, T)>)
    requires
        session_ids(s).no_duplicates(),
    ensures
        distinct_keys(s),
{
    assert forall|i: int, j: int| 0 <= i < s.len() && 0 <= j < s.len() && i != j implies s[i].0 != s[j].0 by {
        assert(session_ids(s)[i] == s[i].0 && session_ids(s)[j] == s[j].0);
    }
}

/// Records session `id` with channel `tx`, replacing the channel of an
/// earlier record of the same id.
fn upsert_session<T>(sessions: &mut Vec<(usize, T)>, id: usize, tx: T)
    requires
        session_ids(old(sessions)@).no_duplicates(),
    ensures
        session_ids(final(sessions)@).no_duplicates(),
        session_ids(final(sessions)@).to_set() == session_ids(old(sessions)@).to_set().insert(id),
        assoc_map(final(sessions)@) == assoc_map(old(sessions)@).insert(id, tx),
{
    let ghost before = session_ids(sessions@);
    let ghost s0 = sessions@;
    proof {
        lemma_ids_distinct(s0);
    }
    let mut i: usize = 0;
    while i < sessions.len()
        invariant
            before == session_ids(sessions@),
            before == session_ids(old(sessions)@),
            s0 == sessions@,
            s0 == old(sessions)@,
            distinct_keys(s0),
            before.no_duplicates(),
            i <= sessions@.len(),
            forall|j: int| 0 <= j < i ==> sessions@[j].0 != id,
        decreases sessions@.len() - i,
    {
        if sessions[i].0 == id {
            proof {
                lemma_assoc_update(s0, i as int, tx);
            }
            sessions.set(i, (id, tx));
            assert(sessions@ =~= s0.update(i as int, (s0[i as int].0, tx)));
            assert(session_ids(sessions@) =~= before);
            assert(before[i as int] == id);
            assert(before.to_set().insert(id) =~= before.to_set());
            return;
        }
        i = i + 1;
    }
    proof {
        assert forall|j: int| 0 <= j < before.len() implies before[j] != id by {
            assert(before[j] == sessions@[j].0);
        }
        lemma_push_contains(before, id);
        crate::config::dynamic::lemma_push_no_duplicates(before, id);
    }
    assert(before.push(id).to_set() =~= before.to_set().insert(id));
    proof {
        lemma_assoc_push(s0, id, tx);
    }
    sessions.push((id, tx));
    assert(session_ids(sessions@) =~= before.push(id));
}

} // verus!
