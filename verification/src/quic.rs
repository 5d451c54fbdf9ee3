//! The QUIC publisher's own logic: address-validation tokens, the table of
//! which connection follows which topic, the client's subscription request
//! and the server's handling of it, and responses written in several parts.
use vstd::prelude::*;
use vstd::utf8::{decode_utf8, encode_utf8, encode_utf8_decode_utf8, encode_utf8_valid_utf8, valid_utf8};

use crate::assoc::{
    assoc_map, distinct_keys, lemma_assoc_absent, lemma_assoc_dom, lemma_assoc_index,
    lemma_assoc_push, lemma_assoc_remove, lemma_assoc_update,
};
use crate::config::dynamic::{lemma_push_contains, lemma_push_no_duplicates};
use crate::text::{
    chars_eq, chars_of, has_char, lemma_split_cons, lemma_split_no_sep, lemma_split_pieces_props,
    push_char, push_str, split_chars, split_pieces, str_eq,
};

use std::collections::HashMap;

verus! {

broadcast use vstd::std_specs::hash::group_hash_axioms;

// ---------------------------------------------------------------------------
// Address-validation tokens
// ---------------------------------------------------------------------------

/// The subscriptions after the connections `cids` are forgotten one after
/// another, each as [`SubscriptionTable::remove_client`] forgets one.
pub open spec fn sweep_spec(m: Map<Seq<char>, Set<Seq<u8>>>, cids: Seq<Seq<u8>>) -> Map<Seq<char>, Set<Seq<u8>>>
    decreases cids.len(),
{
    if cids.len() == 0 {
        m
    } else {
        let prev = sweep_spec(m, cids.drop_last());
        Map::new(|t: Seq<char>| prev.dom().contains(t), |t: Seq<char>| prev[t].remove(cids.last()))
    }
}

/// A sweep that forgets the closed connections keeps every topic and leaves
/// none of those connections in any topic's subscribers; the other
/// subscribers stay.
pub proof fn lemma_sweep_forgets(m: Map<Seq<char>, Set<Seq<u8>>>, cids: Seq<Seq<u8>>)
    ensures
        sweep_spec(m, cids).dom() == m.dom(),
        forall|t: Seq<char>| #[trigger] m.dom().contains(t) ==> sweep_spec(m, cids)[t] == m[t].difference(cids.to_set()),
    decreases cids.len(),
{
    if cids.len() > 0 {
        let prev = sweep_spec(m, cids.drop_last());
        lemma_sweep_forgets(m, cids.drop_last());
        assert(sweep_spec(m, cids).dom() =~= m.dom());
        assert forall|t: Seq<char>| #[trigger] m.dom().contains(t) implies sweep_spec(m, cids)[t] == m[t].difference(cids.to_set()) by {
            lemma_push_contains(cids.drop_last(), cids.last());
            assert(cids.drop_last().push(cids.last()) =~= cids);
            assert(sweep_spec(m, cids)[t] =~= m[t].difference(cids.to_set()));
        }
    } else {
        assert forall|t: Seq<char>| #[trigger] m.dom().contains(t) implies sweep_spec(m, cids)[t] == m[t].difference(cids.to_set()) by {
            assert(m[t].difference(cids.to_set()) =~= m[t]);
        }
    }
}

/// The bytes of `quiche`, with which every token starts.
pub open spec fn token_prefix() -> Seq<u8> {
    seq![113u8, 117u8, 105u8, 99u8, 104u8, 101u8]
}

/// A token: `quiche`, the client's IP address octets, then the original
/// destination connection id.
pub open spec fn mint_token_spec(addr: Seq<u8>, dcid: Seq<u8>) -> Seq<u8> {
    token_prefix() + addr + dcid
}

/// The original destination connection id that a token carries, when it
/// starts with `quiche` followed by the client's address octets.
pub open spec fn validate_token_spec(addr: Seq<u8>, token: Seq<u8>) -> Option<Seq<u8>> {
    if token.len() < 6 || token.take(6) != token_prefix() {
        None
    } else {
        let t = token.skip(6);
        if t.len() < addr.len() || t.take(addr.len() as int) != addr {
            None
        } else {
            Some(t.skip(addr.len() as int))
        }
    }
}

fn append_bytes(out: &mut Vec<u8>, b: &[u8])
    ensures
        final(out)@ == old(out)@ + b@,
{
    let ghost start = out@;
    let mut i: usize = 0;
    while i < b.len()
        invariant
            i <= b@.len(),
            out@ == start + b@.take(i as int),
        decreases b@.len() - i,
    {
        out.push(b[i]);
        i = i + 1;
        assert(out@ =~= start + b@.take(i as int));
    }
    assert(b@.take(b@.len() as int) =~= b@);
}

fn bytes_eq_at(a: &[u8], from: usize, b: &[u8]) -> (r: bool)
    requires
        from + b@.len() <= a@.len(),
    ensures
        r == (a@.subrange(from as int, from + b@.len()) == b@),
{
    let alen = a.len();
    let mut i: usize = 0;
    while i < b.len()
        invariant
            alen == a@.len(),
            from + b@.len() <= a@.len(),
            i <= b@.len(),
            forall|j: int| 0 <= j < i ==> a@[from + j] == b@[j],
        decreases b@.len() - i,
    {
        assert(from + i < a@.len());
        let idx: usize = from + i;
        if a[idx] != b[i] {
            assert(a@.subrange(from as int, from + b@.len())[i as int] != b@[i as int]);
            return false;
        }
        i = i + 1;
    }
    assert(a@.subrange(from as int, from + b@.len()) =~= b@);
    true
}

/// The token the server hands a client in a retry: `quiche`, then the
/// client's address octets `addr`, then the destination connection id
/// `dcid` of the client's packet.
pub fn mint_token(dcid: &[u8], addr: &[u8]) -> (r: Vec<u8>)
    ensures
        r@ == mint_token_spec(addr@, dcid@),
{
    let mut token: Vec<u8> = Vec::new();
    let prefix: [u8; 6] = [113u8, 117u8, 105u8, 99u8, 104u8, 101u8];
    append_bytes(&mut token, &prefix);
    assert(prefix@ =~= token_prefix());
    append_bytes(&mut token, addr);
    append_bytes(&mut token, dcid);
    token
}

/// Checks a client's token against its address octets `addr` and gives
/// back the original destination connection id it carries.
pub fn validate_token(addr: &[u8], token: &[u8]) -> (r: Option<Vec<u8>>)
    ensures
        r matches Some(v) ==> validate_token_spec(addr@, token@) == Some(v@),
        r is None ==> validate_token_spec(addr@, token@) is None,
{
    if token.len() < 6 {
        return None;
    }
    let prefix: [u8; 6] = [113u8, 117u8, 105u8, 99u8, 104u8, 101u8];
    assert(prefix@ =~= token_prefix());
    if !bytes_eq_at(token, 0, &prefix) {
        assert(token@.subrange(0, 6) =~= token@.take(6));
        return None;
    }
    assert(token@.subrange(0, 6) =~= token@.take(6));
    let ghost t = token@.skip(6);
    if token.len() - 6 < addr.len() {
        return None;
    }
    if !bytes_eq_at(token, 6, addr) {
        assert(token@.subrange(6, 6 + addr@.len() as int) =~= t.take(addr@.len() as int));
        return None;
    }
    assert(token@.subrange(6, 6 + addr@.len() as int) =~= t.take(addr@.len() as int));
    let mut odcid: Vec<u8> = Vec::new();
    let mut i: usize = 6 + addr.len();
    while i < token.len()
        invariant
            6 + addr@.len() <= i <= token@.len(),
            odcid@ == token@.subrange(6 + addr@.len() as int, i as int),
        decreases token@.len() - i,
    {
        odcid.push(token[i]);
        i = i + 1;
        assert(odcid@ =~= token@.subrange(6 + addr@.len() as int, i as int));
    }
    assert(odcid@ =~= t.skip(addr@.len() as int));
    Some(odcid)
}

/// A token the server minted for a client validates, for that client, to
/// the connection id it was minted with.
pub proof fn lemma_token_roundtrip(addr: Seq<u8>, dcid: Seq<u8>)
    ensures
        validate_token_spec(addr, mint_token_spec(addr, dcid)) == Some(dcid),
{
    let token = mint_token_spec(addr, dcid);
    assert(token.take(6) =~= token_prefix());
    assert(token.skip(6) =~= addr + dcid);
    assert((addr + dcid).take(addr.len() as int) =~= addr);
    assert((addr + dcid).skip(addr.len() as int) =~= dcid);
}

/// A token presented from another address is refused when the two
/// addresses have the same length but differ.
pub proof fn lemma_token_bound_to_address(addr: Seq<u8>, other: Seq<u8>, dcid: Seq<u8>)
    requires
        other.len() == addr.len(),
        other != addr,
    ensures
        validate_token_spec(other, mint_token_spec(addr, dcid)) is None,
{
    let token = mint_token_spec(addr, dcid);
    assert(token.take(6) =~= token_prefix());
    assert(token.skip(6) =~= addr + dcid);
    assert((addr + dcid).take(addr.len() as int) =~= addr);
}

/// What the server does with a packet of a connection it does not know.
pub enum ConnectionStep {
    /// The packet is not an Initial packet: drop it.
    NotInitial,
    /// The client's version is not supported: negotiate a version.
    NegotiateVersion,
    /// The client sent no token: answer with a retry carrying this token.
    Retry(Vec<u8>),
    /// The token does not validate: drop the packet.
    InvalidToken,
    /// The destination connection id does not have the server's id length: drop the packet.
    InvalidDestination,
    /// Accept the connection; this is the original destination connection id.
    Accept(Vec<u8>),
}

/// The decision for a packet of an unknown connection, from client address
/// octets `addr`: only an Initial packet of a supported version is
/// considered; without a token the client is sent a retry token for `dcid`;
/// a token must validate, and `dcid` must be as long as the server's own
/// connection ids (`scid_len`), before the connection is accepted.
pub fn new_connection_step(
    is_initial: bool,
    version_supported: bool,
    token: &[u8],
    addr: &[u8],
    dcid: &[u8],
    scid_len: usize,
) -> (r: ConnectionStep)
    ensures
        !is_initial ==> r is NotInitial,
        is_initial && !version_supported ==> r is NegotiateVersion,
        is_initial && version_supported && token@.len() == 0 ==> (r matches ConnectionStep::Retry(t) && t@ == mint_token_spec(addr@, dcid@)),
        is_initial && version_supported && token@.len() > 0 ==> {
            &&& validate_token_spec(addr@, token@) is None ==> r is InvalidToken
            &&& validate_token_spec(addr@, token@) is Some && scid_len != dcid@.len() ==> r is InvalidDestination
            &&& validate_token_spec(addr@, token@) is Some && scid_len == dcid@.len() ==> (r matches ConnectionStep::Accept(o) && Some(o@) == validate_token_spec(addr@, token@))
        },
{
    if !is_initial {
        return ConnectionStep::NotInitial;
    }
    if !version_supported {
        return ConnectionStep::NegotiateVersion;
    }
    if token.len() == 0 {
        return ConnectionStep::Retry(mint_token(dcid, addr));
    }
    match validate_token(addr, token) {
        None => ConnectionStep::InvalidToken,
        Some(odcid) => {
            if scid_len != dcid.len() {
                ConnectionStep::InvalidDestination
            } else {
                ConnectionStep::Accept(odcid)
            }
        },
    }
}

// ---------------------------------------------------------------------------
// Topic subscriptions
// ---------------------------------------------------------------------------

/// The reply to a subscription action on an unknown topic.
pub const NO_SUBSCRIPTION: &'static str = "ERROR: Subscription does not exist";

/// The reply to an action that is neither `sub` nor `unsub`.
pub const NO_ACTION: &'static str = "ERROR: error: Non-existent Action";

/// The view of a connection-id list.
pub open spec fn cid_views(s: Seq<Vec<u8>>) -> Seq<Seq<u8>> {
    s.map_values(|c: Vec<u8>| c@)
}

/// A topic and the connections that follow it.
pub struct TopicEntry {
    topic: String,
    cids: Vec<Vec<u8>>,
}

/// The view of a topic entry: the topic and the set of its connections.
pub closed spec fn topic_view(e: TopicEntry) -> (Seq<char>, Set<Seq<u8>>) {
    (e.topic@, cid_views(e.cids@).to_set())
}

/// The topics a publisher serves, each with the connections that follow it.
pub struct SubscriptionTable {
    entries: Vec<TopicEntry>,
}

/// One subscription action: `sub` adds the connection to a known topic,
/// `unsub` takes it out; an unknown topic or action gets an error reply.
pub open spec fn sub_step(
    m: Map<Seq<char>, Set<Seq<u8>>>,
    cid: Seq<u8>,
    name: Seq<char>,
    topic: Seq<char>,
) -> (Map<Seq<char>, Set<Seq<u8>>>, Option<Seq<char>>) {
    if name == "sub"@ {
        if m.dom().contains(topic) {
            (m.insert(topic, m[topic].insert(cid)), None)
        } else {
            (m, Some(NO_SUBSCRIPTION@))
        }
    } else if name == "unsub"@ {
        if m.dom().contains(topic) {
            (m.insert(topic, m[topic].remove(cid)), None)
        } else {
            (m, Some(NO_SUBSCRIPTION@))
        }
    } else {
        (m, Some(NO_ACTION@))
    }
}

/// Subscription actions in order; the first action that is not of the
/// form `{name}@{topic}` ends the handling. Gives the table and the replies.
pub open spec fn handle_actions(
    m: Map<Seq<char>, Set<Seq<u8>>>,
    cid: Seq<u8>,
    actions: Seq<Seq<char>>,
) -> (Map<Seq<char>, Set<Seq<u8>>>, Seq<Seq<char>>)
    decreases actions.len(),
{
    if actions.len() == 0 {
        (m, Seq::empty())
    } else {
        let cmd = split_pieces(actions[0], '@');
        if cmd.len() != 2 {
            (m, Seq::empty())
        } else {
            let step = sub_step(m, cid, cmd[0], cmd[1]);
            let rest = handle_actions(step.0, cid, actions.drop_first());
            (
                rest.0,
                (match step.1 {
                    Some(x) => seq![x],
                    None => Seq::empty(),
                }) + rest.1,
            )
        }
    }
}

/// What a stream message `buf` of connection `cid` does: when it is UTF-8,
/// its `;`-separated actions are handled in order; otherwise nothing.
pub open spec fn handle_sub_spec(
    m: Map<Seq<char>, Set<Seq<u8>>>,
    cid: Seq<u8>,
    buf: Seq<u8>,
) -> (Map<Seq<char>, Set<Seq<u8>>>, Seq<Seq<char>>) {
    if valid_utf8(buf) {
        handle_actions(m, cid, split_pieces(decode_utf8(buf), ';'))
    } else {
        (m, Seq::empty())
    }
}

/// `String::from_utf8`: the text that the bytes encode, when they are valid UTF-8.
#[verifier::external_body]
fn utf8_decode(buf: &[u8]) -> (r: Option<String>)
    ensures
        r is Some <==> valid_utf8(buf@),
        r matches Some(s) ==> s@ == decode_utf8(buf@),
{
    String::from_utf8(buf.to_vec()).ok()
}

impl SubscriptionTable {
    /// The entries as (topic, connections).
    pub closed spec fn entry_views(self) -> Seq<(Seq<char>, Set<Seq<u8>>)> {
        self.entries@.map_values(|e: TopicEntry| topic_view(e))
    }

    /// The connections that follow each topic.
    pub closed spec fn topics(self) -> Map<Seq<char>, Set<Seq<u8>>> {
        assoc_map(self.entry_views())
    }

    /// Each topic occurs once and lists each connection once.
    pub closed spec fn wf(self) -> bool {
        &&& distinct_keys(self.entry_views())
        &&& forall|i: int| 0 <= i < self.entries@.len() ==> cid_views(#[trigger] self.entries@[i].cids@).no_duplicates()
    }

    /// A table without topics.
    pub fn new() -> (r: SubscriptionTable)
        ensures
            r.wf(),
            r.topics() == Map::<Seq<char>, Set<Seq<u8>>>::empty(),
    {
        let r = SubscriptionTable { entries: Vec::new() };
        assert(r.entry_views() =~= Seq::<(Seq<char>, Set<Seq<u8>>)>::empty());
        r
    }

    fn find(&self, topic: &str) -> (r: Option<usize>)
        requires
            self.wf(),
        ensures
            r matches Some(i) ==> i < self.entries@.len() && self.entries@[i as int].topic@ == topic@
                && self.topics().dom().contains(topic@)
                && self.topics()[topic@] == cid_views(self.entries@[i as int].cids@).to_set(),
            r is None ==> !self.topics().dom().contains(topic@),
    {
        let mut i: usize = 0;
        while i < self.entries.len()
            invariant
                self.wf(),
                i <= self.entries@.len(),
                forall|j: int| 0 <= j < i ==> self.entries@[j].topic@ != topic@,
            decreases self.entries@.len() - i,
        {
            if str_eq(self.entries[i].topic.as_str(), topic) {
                proof {
                    assert(self.entry_views()[i as int] == topic_view(self.entries@[i as int]));
                    lemma_assoc_index(self.entry_views(), i as int);
                }
                return Some(i);
            }
            i = i + 1;
        }
        proof {
            assert forall|j: int| 0 <= j < self.entry_views().len() implies self.entry_views()[j].0 != topic@ by {
                assert(self.entry_views()[j] == topic_view(self.entries@[j]));
            }
            lemma_assoc_absent(self.entry_views(), topic@);
        }
        None
    }

    /// Serves `topic` with no connections yet, replacing any earlier entry.
    pub fn register_topic(&mut self, topic: String)
        requires
            old(self).wf(),
        ensures
            final(self).wf(),
            final(self).topics() == old(self).topics().insert(topic@, Set::empty()),
    {
        let ghost tv = topic@;
        let ghost ev = self.entry_views();
        let ghost old_entries = self.entries@;
        let e = TopicEntry { topic: topic.clone(), cids: Vec::new() };
        assert(cid_views(e.cids@) =~= Seq::<Seq<u8>>::empty());
        assert(topic_view(e) == (tv, Set::<Seq<u8>>::empty()));
        match self.find(topic.as_str()) {
            Some(i) => {
                proof {
                    assert(ev[i as int] == topic_view(old_entries[i as int]));
                    lemma_assoc_update(ev, i as int, Set::empty());
                }
                self.entries.set(i, e);
                assert(self.entry_views() =~= ev.update(i as int, (ev[i as int].0, Set::empty())));
                assert forall|j: int| 0 <= j < self.entries@.len() implies cid_views(#[trigger] self.entries@[j].cids@).no_duplicates() by {
                    if j != i {
                        assert(self.entries@[j] == old_entries[j]);
                    }
                }
            },
            None => {
                proof {
                    assert forall|j: int| 0 <= j < ev.len() implies ev[j].0 != tv by {
                        lemma_assoc_dom(ev, tv);
                    }
                    lemma_assoc_push(ev, tv, Set::empty());
                }
                self.entries.push(e);
                assert(self.entry_views() =~= ev.push((tv, Set::empty())));
                assert forall|j: int| 0 <= j < self.entries@.len() implies cid_views(#[trigger] self.entries@[j].cids@).no_duplicates() by {
                    if j < old_entries.len() {
                        assert(self.entries@[j] == old_entries[j]);
                    }
                }
            },
        }
    }

    /// The connections that follow `topic`, if the topic is served.
    pub fn subscribers(&self, topic: &str) -> (r: Option<&Vec<Vec<u8>>>)
        requires
            self.wf(),
        ensures
            r is Some <==> self.topics().dom().contains(topic@),
            r matches Some(v) ==> cid_views(v@).to_set() == self.topics()[topic@]
                && cid_views(v@).no_duplicates(),
    {
        match self.find(topic) {
            Some(i) => Some(&self.entries[i].cids),
            None => None,
        }
    }

    /// The served topics.
    pub fn topic_names(&self) -> (r: Vec<String>)
        requires
            self.wf(),
        ensures
            forall|t: Seq<char>| self.topics().dom().contains(t) <==> (exists|i: int| 0 <= i < r@.len() && #[trigger] r@[i]@ == t),
    {
        let mut r: Vec<String> = Vec::new();
        let mut i: usize = 0;
        while i < self.entries.len()
            invariant
                self.wf(),
                i <= self.entries@.len(),
                r@.len() == i,
                forall|j: int| 0 <= j < i ==> #[trigger] r@[j]@ == self.entries@[j].topic@,
            decreases self.entries@.len() - i,
        {
            r.push(self.entries[i].topic.clone());
            i = i + 1;
        }
        proof {
            assert forall|t: Seq<char>| self.topics().dom().contains(t) <==> (exists|i: int| 0 <= i < r@.len() && #[trigger] r@[i]@ == t) by {
                lemma_assoc_dom(self.entry_views(), t);
                if self.topics().dom().contains(t) {
                    let j = choose|j: int| 0 <= j < self.entry_views().len() && self.entry_views()[j].0 == t;
                    assert(self.entry_views()[j] == topic_view(self.entries@[j]));
                    assert(r@[j]@ == t);
                }
                if exists|i: int| 0 <= i < r@.len() && #[trigger] r@[i]@ == t {
                    let j = choose|j: int| 0 <= j < r@.len() && #[trigger] r@[j]@ == t;
                    assert(self.entry_views()[j] == topic_view(self.entries@[j]));
                }
            }
        }
        r
    }

    /// Replaces entry `i` by one with the same topic and connections `cids`.
    fn replace_cids(&mut self, i: usize, cids: Vec<Vec<u8>>)
        requires
            old(self).wf(),
            i < old(self).entries@.len(),
            cid_views(cids@).no_duplicates(),
        ensures
            final(self).wf(),
            final(self).entries@.len() == old(self).entries@.len(),
            forall|j: int| 0 <= j < final(self).entries@.len() ==> #[trigger] final(self).entries@[j].topic@ == old(self).entries@[j].topic@,
            final(self).topics() == old(self).topics().insert(
                old(self).entries@[i as int].topic@,
                cid_views(cids@).to_set(),
            ),
    {
        let ghost ev = self.entry_views();
        let ghost old_entries = self.entries@;
        let topic = self.entries[i].topic.clone();
        let e = TopicEntry { topic, cids };
        proof {
            assert(ev[i as int] == topic_view(old_entries[i as int]));
            lemma_assoc_update(ev, i as int, cid_views(cids@).to_set());
        }
        self.entries.set(i, e);
        assert(self.entry_views() =~= ev.update(i as int, (ev[i as int].0, cid_views(cids@).to_set())));
        assert forall|j: int| 0 <= j < self.entries@.len() implies cid_views(#[trigger] self.entries@[j].cids@).no_duplicates() by {
            if j != i {
                assert(self.entries@[j] == old_entries[j]);
            }
        }
    }

    /// Forgets the connection `cid` in every topic; the topics stay.
    pub fn remove_client(&mut self, cid: &[u8])
        requires
            old(self).wf(),
        ensures
            final(self).wf(),
            final(self).topics().dom() == old(self).topics().dom(),
            forall|t: Seq<char>| #[trigger] old(self).topics().dom().contains(t) ==> final(self).topics()[t] == old(self).topics()[t].remove(cid@),
    {
        let ghost m0 = self.topics();
        let ghost names = self.entries@.map_values(|e: TopicEntry| e.topic@);
        proof {
            assert forall|a: int, b: int| 0 <= a < names.len() && 0 <= b < names.len() && a != b implies names[a] != names[b] by {
                assert(self.entry_views()[a] == topic_view(self.entries@[a]));
                assert(self.entry_views()[b] == topic_view(self.entries@[b]));
            }
            assert forall|t: Seq<char>| m0.dom().contains(t) <==> exists|j: int| 0 <= j < names.len() && names[j] == t by {
                lemma_assoc_dom(self.entry_views(), t);
                if m0.dom().contains(t) {
                    let j = choose|j: int| 0 <= j < self.entry_views().len() && self.entry_views()[j].0 == t;
                    assert(self.entry_views()[j] == topic_view(self.entries@[j]));
                    assert(names[j] == t);
                }
                if exists|j: int| 0 <= j < names.len() && names[j] == t {
                    let j = choose|j: int| 0 <= j < names.len() && names[j] == t;
                    assert(self.entry_views()[j] == topic_view(self.entries@[j]));
                }
            }
        }
        let mut i: usize = 0;
        while i < self.entries.len()
            invariant
                self.wf(),
                i <= self.entries@.len(),
                names.len() == self.entries@.len(),
                forall|a: int, b: int| 0 <= a < names.len() && 0 <= b < names.len() && a != b ==> names[a] != names[b],
                forall|j: int| 0 <= j < self.entries@.len() ==> #[trigger] self.entries@[j].topic@ == names[j],
                forall|t: Seq<char>| self.topics().dom().contains(t) <==> exists|j: int| 0 <= j < names.len() && names[j] == t,
                forall|t: Seq<char>| m0.dom().contains(t) <==> exists|j: int| 0 <= j < names.len() && names[j] == t,
                forall|j: int| 0 <= j < i ==> self.topics()[#[trigger] names[j]] == m0[names[j]].remove(cid@),
                forall|j: int| i <= j < names.len() ==> self.topics()[#[trigger] names[j]] == m0[names[j]],
            decreases self.entries@.len() - i,
        {
            proof {
                assert(self.entry_views()[i as int] == topic_view(self.entries@[i as int]));
                lemma_assoc_index(self.entry_views(), i as int);
            }
            let cids = remove_cid(&self.entries[i].cids, cid);
            let ghost before = self.topics();
            self.replace_cids(i, cids);
            proof {
                assert forall|t: Seq<char>| self.topics().dom().contains(t) <==> exists|j: int| 0 <= j < names.len() && names[j] == t by {
                    if t == names[i as int] {
                        assert(names[i as int] == t);
                    }
                }
                assert forall|j: int| 0 <= j < i + 1 implies self.topics()[#[trigger] names[j]] == m0[names[j]].remove(cid@) by {
                    if j != i {
                        assert(names[j] != names[i as int]);
                    }
                }
                assert forall|j: int| i + 1 <= j < names.len() implies self.topics()[#[trigger] names[j]] == m0[names[j]] by {
                    assert(names[j] != names[i as int]);
                }
            }
            i = i + 1;
        }
        proof {
            assert(self.topics().dom() =~= m0.dom());
            assert forall|t: Seq<char>| #[trigger] m0.dom().contains(t) implies self.topics()[t] == m0[t].remove(cid@) by {
                let j = choose|j: int| 0 <= j < names.len() && names[j] == t;
                assert(self.topics()[names[j]] == m0[names[j]].remove(cid@));
            }
        }
    }

    /// Handles a subscription message `buf` from connection `cid`, such as
    /// `sub@{topic}` or `sub@{a};unsub@{b}`, and gives the error replies to
    /// send back (see [`handle_sub_spec`]).
    pub fn handle_sub(&mut self, cid: &[u8], buf: &[u8]) -> (r: Vec<String>)
        requires
            old(self).wf(),
        ensures
            final(self).wf(),
            (final(self).topics(), r@.map_values(|s: String| s@)) == handle_sub_spec(old(self).topics(), cid@, buf@),
    {
        let text = match utf8_decode(buf) {
            Some(t) => t,
            None => {
                let r: Vec<String> = Vec::new();
                assert(r@.map_values(|s: String| s@) =~= Seq::<Seq<char>>::empty());
                return r;
            },
        };
        let tv = chars_of(text.as_str());
        let actions = split_chars(tv.as_slice(), ';');
        let ghost all = split_pieces(tv@, ';');
        let ghost m0 = self.topics();
        let sub = chars_of("sub");
        let unsub = chars_of("unsub");
        let mut msgs: Vec<String> = Vec::new();
        let mut k: usize = 0;
        assert(all.skip(0) =~= all);
        assert(msgs@.map_values(|s: String| s@) =~= Seq::<Seq<char>>::empty());
        while k < actions.len()
            invariant
                self.wf(),
                k <= actions@.len(),
                actions@.len() == all.len(),
                forall|j: int| 0 <= j < all.len() ==> actions@[j]@ == #[trigger] all[j],
                sub@ == "sub"@,
                unsub@ == "unsub"@,
                handle_actions(m0, cid@, all).0 == handle_actions(self.topics(), cid@, all.skip(k as int)).0,
                handle_actions(m0, cid@, all).1 == msgs@.map_values(|s: String| s@) + handle_actions(self.topics(), cid@, all.skip(k as int)).1,
            ensures
                self.wf(),
                handle_actions(self.topics(), cid@, all.skip(k as int)) == (self.topics(), Seq::<Seq<char>>::empty()),
                handle_actions(m0, cid@, all).0 == handle_actions(self.topics(), cid@, all.skip(k as int)).0,
                handle_actions(m0, cid@, all).1 == msgs@.map_values(|s: String| s@) + handle_actions(self.topics(), cid@, all.skip(k as int)).1,
            decreases actions@.len() - k,
        {
            let ghost rest = all.skip(k as int);
            assert(rest[0] == all[k as int]);
            assert(rest.drop_first() =~= all.skip(k + 1));
            let cmd = split_chars(actions[k].as_slice(), '@');
            assert(actions@[k as int]@ == all[k as int]);
            if cmd.len() != 2 {
                assert(split_pieces(rest[0], '@').len() == cmd@.len());
                assert(handle_actions(self.topics(), cid@, rest) == (self.topics(), Seq::<Seq<char>>::empty()));
                break;
            }
            let name = &cmd[0];
            let topic = string_of_chars(cmd[1].as_slice());
            let ghost before = self.topics();
            let ghost before_msgs = msgs@.map_values(|s: String| s@);
            let ghost step = sub_step(before, cid@, cmd@[0]@, cmd@[1]@);
            let is_sub = chars_eq(name.as_slice(), sub.as_slice());
            let is_unsub = chars_eq(name.as_slice(), unsub.as_slice());
            if is_sub || is_unsub {
                match self.find(topic.as_str()) {
                    Some(i) => {
                        let cids = if is_sub {
                            insert_cid(&self.entries[i].cids, cid)
                        } else {
                            remove_cid(&self.entries[i].cids, cid)
                        };
                        self.replace_cids(i, cids);
                        assert(self.topics() == step.0);
                    },
                    None => {
                        msgs.push(NO_SUBSCRIPTION.to_owned());
                        assert(msgs@.map_values(|s: String| s@) =~= before_msgs.push(NO_SUBSCRIPTION@));
                    },
                }
            } else {
                msgs.push(NO_ACTION.to_owned());
                assert(msgs@.map_values(|s: String| s@) =~= before_msgs.push(NO_ACTION@));
            }
            proof {
                assert(self.topics() == step.0);
                assert(msgs@.map_values(|s: String| s@) =~= before_msgs + (match step.1 {
                    Some(x) => seq![x],
                    None => Seq::<Seq<char>>::empty(),
                }));
            }
            k = k + 1;
            assert(handle_actions(m0, cid@, all).1 =~= msgs@.map_values(|s: String| s@) + handle_actions(self.topics(), cid@, all.skip(k as int)).1);
        }
        assert(msgs@.map_values(|s: String| s@) + Seq::<Seq<char>>::empty() =~= msgs@.map_values(|s: String| s@));
        msgs
    }
}

/// A string holding the characters of `v`.
fn string_of_chars(v: &[char]) -> (s: String)
    ensures
        s@ == v@,
{
    crate::text::string_of(v)
}

fn find_cid(cids: &Vec<Vec<u8>>, cid: &[u8]) -> (r: Option<usize>)
    ensures
        r matches Some(i) ==> i < cids@.len() && cids@[i as int]@ == cid@,
        r is None ==> !cid_views(cids@).contains(cid@),
{
    let mut i: usize = 0;
    while i < cids.len()
        invariant
            i <= cids@.len(),
            forall|j: int| 0 <= j < i ==> cids@[j]@ != cid@,
        decreases cids@.len() - i,
    {
        if cids[i].len() == cid.len() && bytes_eq_at(cids[i].as_slice(), 0, cid) {
            assert(cids@[i as int]@.subrange(0, cid@.len() as int) =~= cids@[i as int]@);
            return Some(i);
        }
        proof {
            if cids@[i as int]@ == cid@ {
                assert(cids@[i as int]@.subrange(0, cid@.len() as int) =~= cids@[i as int]@);
            }
        }
        i = i + 1;
    }
    proof {
        if cid_views(cids@).contains(cid@) {
            let j = choose|j: int| 0 <= j < cid_views(cids@).len() && cid_views(cids@)[j] == cid@;
            assert(cids@[j]@ == cid@);
        }
    }
    None
}

fn copy_bytes(b: &[u8]) -> (r: Vec<u8>)
    ensures
        r@ == b@,
{
    let mut r: Vec<u8> = Vec::new();
    append_bytes(&mut r, b);
    assert(r@ =~= b@);
    r
}

fn copy_cids(cids: &Vec<Vec<u8>>) -> (r: Vec<Vec<u8>>)
    ensures
        cid_views(r@) == cid_views(cids@),
{
    let mut r: Vec<Vec<u8>> = Vec::new();
    let mut i: usize = 0;
    while i < cids.len()
        invariant
            i <= cids@.len(),
            cid_views(r@) == cid_views(cids@).take(i as int),
        decreases cids@.len() - i,
    {
        let c = copy_bytes(cids[i].as_slice());
        let ghost before = cid_views(r@);
        r.push(c);
        assert(cid_views(r@) =~= before.push(cids@[i as int]@));
        i = i + 1;
        assert(cid_views(cids@).take(i as int) =~= cid_views(cids@).take(i - 1).push(cids@[i - 1]@));
    }
    assert(cid_views(cids@).take(i as int) =~= cid_views(cids@));
    r
}

/// The connections `cids` with `cid` added.
fn insert_cid(cids: &Vec<Vec<u8>>, cid: &[u8]) -> (r: Vec<Vec<u8>>)
    requires
        cid_views(cids@).no_duplicates(),
    ensures
        cid_views(r@).no_duplicates(),
        cid_views(r@).to_set() == cid_views(cids@).to_set().insert(cid@),
{
    let mut r = copy_cids(cids);
    match find_cid(cids, cid) {
        Some(i) => {
            assert(cid_views(cids@)[i as int] == cid@);
            assert(cid_views(cids@).to_set().insert(cid@) =~= cid_views(cids@).to_set());
        },
        None => {
            let ghost before = cid_views(r@);
            r.push(copy_bytes(cid));
            assert(cid_views(r@) =~= before.push(cid@));
            proof {
                lemma_push_no_duplicates(before, cid@);
                lemma_push_contains(before, cid@);
                assert(before.push(cid@).to_set() =~= before.to_set().insert(cid@));
            }
        },
    }
    r
}

/// The connections `cids` without `cid`.
fn remove_cid(cids: &Vec<Vec<u8>>, cid: &[u8]) -> (r: Vec<Vec<u8>>)
    requires
        cid_views(cids@).no_duplicates(),
    ensures
        cid_views(r@).no_duplicates(),
        cid_views(r@).to_set() == cid_views(cids@).to_set().remove(cid@),
{
    let mut r = copy_cids(cids);
    match find_cid(cids, cid) {
        Some(i) => {
            let ghost before = cid_views(r@);
            assert(before.len() == r@.len());
            assert(cid_views(cids@).len() == cids@.len());
            r.remove(i);
            assert(cid_views(r@) =~= before.remove(i as int));
            proof {
                assert(before[i as int] == cid@);
                assert forall|a: int, b: int| 0 <= a < cid_views(r@).len() && 0 <= b < cid_views(r@).len() && a != b
                    implies cid_views(r@)[a] != cid_views(r@)[b] by {
                    let a2 = if a < i { a } else { a + 1 };
                    let b2 = if b < i { b } else { b + 1 };
                    assert(cid_views(r@)[a] == before[a2]);
                    assert(cid_views(r@)[b] == before[b2]);
                }
                assert forall|x: Seq<u8>| cid_views(r@).to_set().contains(x) <==> before.to_set().remove(cid@).contains(x) by {
                    if cid_views(r@).contains(x) {
                        let a = choose|a: int| 0 <= a < cid_views(r@).len() && cid_views(r@)[a] == x;
                        let a2 = if a < i { a } else { a + 1 };
                        assert(before[a2] == x);
                        assert(a2 != i);
                    }
                    if before.contains(x) && x != cid@ {
                        let a = choose|a: int| 0 <= a < before.len() && before[a] == x;
                        assert(a != i);
                        let a2 = if a < i { a } else { a - 1 };
                        assert(cid_views(r@)[a2] == x);
                    }
                }
                assert(cid_views(r@).to_set() =~= before.to_set().remove(cid@));
            }
        },
        None => {
            assert(cid_views(cids@).to_set().remove(cid@) =~= cid_views(cids@).to_set());
        },
    }
    r
}

// ---------------------------------------------------------------------------
// The client's subscription request
// ---------------------------------------------------------------------------

/// `sub@{t0};sub@{t1};...` for the topics `topics`.
pub open spec fn sub_request_text(topics: Seq<Seq<char>>) -> Seq<char>
    decreases topics.len(),
{
    if topics.len() == 0 {
        Seq::empty()
    } else if topics.len() == 1 {
        "sub@"@ + topics[0]
    } else {
        "sub@"@ + topics[0] + seq![';'] + sub_request_text(topics.drop_first())
    }
}

/// Adding a topic at the end adds `;sub@{topic}` to the request.
pub proof fn lemma_sub_request_push(topics: Seq<Seq<char>>, t: Seq<char>)
    requires
        topics.len() > 0,
    ensures
        sub_request_text(topics.push(t)) == sub_request_text(topics) + seq![';'] + "sub@"@ + t,
    decreases topics.len(),
{
    if topics.len() == 1 {
        assert(topics.push(t).drop_first() =~= seq![t]);
        assert(seq![t][0] == t);
        assert(sub_request_text(seq![t]) == "sub@"@ + t);
        assert(topics.push(t)[0] == topics[0]);
        assert(sub_request_text(topics) == "sub@"@ + topics[0]);
        assert(sub_request_text(topics.push(t)) == "sub@"@ + topics[0] + seq![';'] + sub_request_text(seq![t]));
        assert(sub_request_text(topics.push(t)) =~= sub_request_text(topics) + seq![';'] + "sub@"@ + t);
    } else {
        lemma_sub_request_push(topics.drop_first(), t);
        assert(topics.push(t).drop_first() =~= topics.drop_first().push(t));
        assert(topics.push(t)[0] == topics[0]);
        let d = topics.drop_first();
        assert(sub_request_text(topics) == "sub@"@ + topics[0] + seq![';'] + sub_request_text(d));
        assert(sub_request_text(topics.push(t)) == "sub@"@ + topics[0] + seq![';'] + sub_request_text(d.push(t)));
        assert(sub_request_text(topics.push(t)) =~= sub_request_text(topics) + seq![';'] + "sub@"@ + t);
    }
}

/// The views of a list of strings.
pub open spec fn string_views(s: Seq<String>) -> Seq<Seq<char>> {
    s.map_values(|x: String| x@)
}

/// The request a client sends once connected: the UTF-8 bytes of
/// `sub@{t0};sub@{t1};...` for its topics.
pub fn subscribe_request(topics: &Vec<String>) -> (r: Vec<u8>)
    requires
        topics@.len() > 0,
    ensures
        r@ == encode_utf8(sub_request_text(string_views(topics@))),
{
    let ghost tv = string_views(topics@);
    let mut s = String::new();
    push_str(&mut s, "sub@");
    push_str(&mut s, topics[0].as_str());
    assert(tv.take(1) =~= seq![tv[0]]);
    assert(s@ == sub_request_text(tv.take(1)));
    let mut i: usize = 1;
    while i < topics.len()
        invariant
            1 <= i <= topics@.len(),
            tv == string_views(topics@),
            s@ == sub_request_text(tv.take(i as int)),
        decreases topics@.len() - i,
    {
        proof {
            lemma_sub_request_push(tv.take(i as int), tv[i as int]);
            assert(tv.take(i + 1) =~= tv.take(i as int).push(tv[i as int]));
        }
        push_char(&mut s, ';');
        push_str(&mut s, "sub@");
        push_str(&mut s, topics[i].as_str());
        i = i + 1;
        assert(s@ =~= sub_request_text(tv.take(i as int)));
    }
    assert(tv.take(i as int) =~= tv);
    s.as_str().as_bytes_vec()
}

/// Every topic of `topics`, in order, gains the connection `cid`.
pub open spec fn subscribe_all(
    m: Map<Seq<char>, Set<Seq<u8>>>,
    cid: Seq<u8>,
    topics: Seq<Seq<char>>,
) -> Map<Seq<char>, Set<Seq<u8>>>
    decreases topics.len(),
{
    if topics.len() == 0 {
        m
    } else {
        subscribe_all(m.insert(topics[0], m[topics[0]].insert(cid)), cid, topics.drop_first())
    }
}

/// The pieces `sub@{t}` of a request split back apart at `;`.
proof fn lemma_split_request(topics: Seq<Seq<char>>)
    requires
        topics.len() > 0,
        forall|i: int| 0 <= i < topics.len() ==> !has_char(#[trigger] topics[i], ';'),
    ensures
        split_pieces(sub_request_text(topics), ';') == topics.map_values(|t: Seq<char>| "sub@"@ + t),
    decreases topics.len(),
{
    reveal_strlit("sub@");
    let a = "sub@"@ + topics[0];
    assert(!has_char(a, ';')) by {
        if has_char(a, ';') {
            let j = choose|j: int| 0 <= j < a.len() && a[j] == ';';
            if j >= 4 {
                assert(topics[0][j - 4] == ';');
            }
        }
    }
    if topics.len() == 1 {
        lemma_split_no_sep(a, ';');
        assert(topics.map_values(|t: Seq<char>| "sub@"@ + t) =~= seq![a]);
    } else {
        let rest = topics.drop_first();
        assert forall|i: int| 0 <= i < rest.len() implies !has_char(#[trigger] rest[i], ';') by {
            assert(rest[i] == topics[i + 1]);
        }
        lemma_split_request(rest);
        lemma_split_cons(a, ';', sub_request_text(rest));
        assert(topics.map_values(|t: Seq<char>| "sub@"@ + t) =~= seq![a] + rest.map_values(|t: Seq<char>| "sub@"@ + t));
    }
}

/// Handling `sub@{t}` actions for topics that are all served subscribes the
/// connection to each of them, with no error reply.
proof fn lemma_handle_sub_actions(m: Map<Seq<char>, Set<Seq<u8>>>, cid: Seq<u8>, topics: Seq<Seq<char>>)
    requires
        forall|i: int| 0 <= i < topics.len() ==> !has_char(#[trigger] topics[i], '@'),
        forall|i: int| 0 <= i < topics.len() ==> m.dom().contains(#[trigger] topics[i]),
    ensures
        handle_actions(m, cid, topics.map_values(|t: Seq<char>| "sub@"@ + t)) == (subscribe_all(m, cid, topics), Seq::<Seq<char>>::empty()),
    decreases topics.len(),
{
    reveal_strlit("sub@");
    reveal_strlit("sub");
    let acts = topics.map_values(|t: Seq<char>| "sub@"@ + t);
    if topics.len() > 0 {
        let t = topics[0];
        let sub_name: Seq<char> = seq!['s', 'u', 'b'];
        assert("sub"@ =~= sub_name);
        assert("sub@"@ + t =~= sub_name + seq!['@'] + t);
        assert(!has_char(sub_name, '@'));
        lemma_split_cons(sub_name, '@', t);
        lemma_split_no_sep(t, '@');
        let cmd = split_pieces(acts[0], '@');
        assert(cmd =~= seq![sub_name, t]);
        let m1 = m.insert(t, m[t].insert(cid));
        let rest = topics.drop_first();
        assert forall|i: int| 0 <= i < rest.len() implies !has_char(#[trigger] rest[i], '@') by {
            assert(rest[i] == topics[i + 1]);
        }
        assert forall|i: int| 0 <= i < rest.len() implies m1.dom().contains(#[trigger] rest[i]) by {
            assert(rest[i] == topics[i + 1]);
        }
        lemma_handle_sub_actions(m1, cid, rest);
        assert(acts.drop_first() =~= rest.map_values(|t: Seq<char>| "sub@"@ + t));
        assert(Seq::<Seq<char>>::empty() + Seq::<Seq<char>>::empty() =~= Seq::<Seq<char>>::empty());
    }
}

/// A client's subscription request, handled by the server, subscribes the
/// connection to every requested topic and draws no error reply — when all
/// the topics are served and none contains `;` or `@`.
pub proof fn lemma_subscribe_request_accepted(m: Map<Seq<char>, Set<Seq<u8>>>, cid: Seq<u8>, topics: Seq<Seq<char>>)
    requires
        topics.len() > 0,
        forall|i: int| 0 <= i < topics.len() ==> !has_char(#[trigger] topics[i], ';'),
        forall|i: int| 0 <= i < topics.len() ==> !has_char(#[trigger] topics[i], '@'),
        forall|i: int| 0 <= i < topics.len() ==> m.dom().contains(#[trigger] topics[i]),
    ensures
        handle_sub_spec(m, cid, encode_utf8(sub_request_text(topics))) == (subscribe_all(m, cid, topics), Seq::<Seq<char>>::empty()),
{
    let text = sub_request_text(topics);
    encode_utf8_valid_utf8(text);
    encode_utf8_decode_utf8(text);
    lemma_split_request(topics);
    lemma_handle_sub_actions(m, cid, topics);
}

/// A connection's `unsub@{t}` request on a served topic `t` unsubscribes
/// that connection alone: every other subscriber of `t` stays, every other
/// topic is untouched, and no error is replied (for a topic without `;` or
/// `@`).
pub proof fn lemma_unsub_removes_only_sender(m: Map<Seq<char>, Set<Seq<u8>>>, cid: Seq<u8>, t: Seq<char>)
    requires
        m.dom().contains(t),
        !has_char(t, ';'),
        !has_char(t, '@'),
    ensures
        ({
            let r = handle_sub_spec(m, cid, encode_utf8("unsub@"@ + t));
            &&& r.1.len() == 0
            &&& r.0.dom() == m.dom()
            &&& !r.0[t].contains(cid)
            &&& forall|c: Seq<u8>| c != cid ==> (#[trigger] r.0[t].contains(c) <==> m[t].contains(c))
            &&& forall|u: Seq<char>| u != t && #[trigger] m.dom().contains(u) ==> r.0[u] == m[u]
        }),
{
    reveal_strlit("unsub@");
    reveal_strlit("unsub");
    let text = "unsub@"@ + t;
    encode_utf8_valid_utf8(text);
    encode_utf8_decode_utf8(text);
    let name: Seq<char> = seq!['u', 'n', 's', 'u', 'b'];
    assert("unsub"@ =~= name);
    assert(text =~= name + seq!['@'] + t);
    assert(!has_char(text, ';')) by {
        if has_char(text, ';') {
            let j = choose|j: int| 0 <= j < text.len() && text[j] == ';';
            if j >= 6 {
                assert(t[j - 6] == ';');
            }
        }
    }
    lemma_split_no_sep(text, ';');
    let acts = split_pieces(text, ';');
    assert(acts =~= seq![text]);
    assert(!has_char(name, '@'));
    lemma_split_cons(name, '@', t);
    lemma_split_no_sep(t, '@');
    assert(split_pieces(acts[0], '@') =~= seq![name, t]);
    let m1 = m.insert(t, m[t].remove(cid));
    reveal_strlit("sub");
    assert("sub"@.len() == 3);
    assert(name != "sub"@);
    assert(name == "unsub"@);
    assert(sub_step(m, cid, name, t) == (m1, None::<Seq<char>>));
    assert(acts.drop_first() =~= Seq::<Seq<char>>::empty());
    assert(handle_actions(m1, cid, acts.drop_first()) == (m1, Seq::<Seq<char>>::empty()));
    assert(Seq::<Seq<char>>::empty() + Seq::<Seq<char>>::empty() =~= Seq::<Seq<char>>::empty());
    assert(handle_actions(m, cid, acts) == (m1, Seq::<Seq<char>>::empty()));
    assert(handle_sub_spec(m, cid, encode_utf8(text)) == (m1, Seq::<Seq<char>>::empty()));
    assert(m1.dom() =~= m.dom());
}

// ---------------------------------------------------------------------------
// Responses written in several parts
// ---------------------------------------------------------------------------

/// A response body and how much of it has been written.
pub struct PartialResponse {
    body: Vec<u8>,
    written: usize,
}

/// What writing to a stream gave: some bytes written, nothing writable, or
/// a failure.
pub enum StreamWrite {
    Written(usize),
    Done,
    Failed,
}

/// The view of a partial response: its body and how much is written.
pub closed spec fn response_view(r: PartialResponse) -> (Seq<u8>, nat) {
    (r.body@, r.written as nat)
}

/// The responses still being written, by stream id.
pub struct PartialResponses {
    entries: HashMap<u64, PartialResponse>,
}

impl PartialResponses {
    /// Each stream's body and how much of it is written.
    pub closed spec fn responses(self) -> Map<u64, (Seq<u8>, nat)> {
        self.entries@.map_values(|r: PartialResponse| response_view(r))
    }

    /// No more is written of a response than its body holds.
    pub closed spec fn wf(self) -> bool {
        forall|k: u64| #[trigger] self.entries@.contains_key(k) ==> self.entries@[k].written <= self.entries@[k].body@.len()
    }

    /// No responses.
    pub fn new() -> (r: PartialResponses)
        ensures
            r.wf(),
            r.responses() == Map::<u64, (Seq<u8>, nat)>::empty(),
    {
        let r = PartialResponses { entries: HashMap::new() };
        assert(r.responses() =~= Map::<u64, (Seq<u8>, nat)>::empty());
        r
    }

    /// Starts writing `body` on `stream_id`, replacing an earlier response.
    pub fn insert(&mut self, stream_id: u64, body: Vec<u8>)
        requires
            old(self).wf(),
        ensures
            final(self).wf(),
            final(self).responses() == old(self).responses().insert(stream_id, (body@, 0nat)),
    {
        let resp = PartialResponse { body, written: 0 };
        self.entries.insert(stream_id, resp);
        assert(self.responses() =~= old(self).responses().insert(stream_id, (resp.body@, 0nat)));
    }

    /// The part of the response on `stream_id` still to be written.
    pub fn pending_body(&self, stream_id: u64) -> (r: Option<Vec<u8>>)
        requires
            self.wf(),
        ensures
            r is Some <==> self.responses().dom().contains(stream_id),
            r matches Some(b) ==> b@ == self.responses()[stream_id].0.skip(self.responses()[stream_id].1 as int),
    {
        match self.entries.get(&stream_id) {
            Some(resp) => {
                assert(self.entries@.contains_key(stream_id));
                let mut out: Vec<u8> = Vec::new();
                let mut k: usize = resp.written;
                while k < resp.body.len()
                    invariant
                        resp.written <= k <= resp.body@.len(),
                        out@ == resp.body@.subrange(resp.written as int, k as int),
                    decreases resp.body@.len() - k,
                {
                    out.push(resp.body[k]);
                    k = k + 1;
                    assert(out@ =~= resp.body@.subrange(resp.written as int, k as int));
                }
                assert(out@ =~= resp.body@.skip(resp.written as int));
                Some(out)
            },
            None => None,
        }
    }

    /// Records what writing the pending part of `stream_id` gave: a
    /// failure drops the response; otherwise the written count grows by what
    /// was written (nothing for `Done`), and a fully written response is
    /// dropped. A stream without a response is left alone.
    pub fn handle_writable(&mut self, stream_id: u64, outcome: StreamWrite)
        requires
            old(self).wf(),
            outcome matches StreamWrite::Written(n) ==> (old(self).responses().dom().contains(stream_id)
                ==> old(self).responses()[stream_id].1 + n <= old(self).responses()[stream_id].0.len()),
        ensures
            final(self).wf(),
            !old(self).responses().dom().contains(stream_id) ==> final(self).responses() == old(self).responses(),
            old(self).responses().dom().contains(stream_id) ==> {
                let (body, written) = old(self).responses()[stream_id];
                let n: nat = match outcome {
                    StreamWrite::Written(n) => n as nat,
                    _ => 0,
                };
                &&& outcome is Failed ==> final(self).responses() == old(self).responses().remove(stream_id)
                &&& !(outcome is Failed) && written + n == body.len() ==> final(self).responses() == old(self).responses().remove(stream_id)
                &&& !(outcome is Failed) && written + n != body.len() ==> final(self).responses() == old(self).responses().insert(stream_id, (body, written + n))
            },
    {
        let ghost e0 = self.entries@;
        match self.entries.remove(&stream_id) {
            None => {
                assert(self.entries@ =~= e0);
                assert(self.responses() =~= old(self).responses());
            },
            Some(resp) => {
                assert(e0.contains_key(stream_id) && e0[stream_id] == resp);
                assert(self.responses() =~= old(self).responses().remove(stream_id));
                let n: usize = match outcome {
                    StreamWrite::Written(n) => n,
                    StreamWrite::Done => 0,
                    StreamWrite::Failed => {
                        return;
                    },
                };
                let mut resp = resp;
                let blen = resp.body.len();
                assert(resp.written + n <= blen);
                resp.written = resp.written + n;
                if resp.written != blen {
                    self.entries.insert(stream_id, resp);
                    assert(self.responses() =~= old(self).responses().insert(stream_id, response_view(resp)));
                }
            },
        }
    }
}

} // verus!
