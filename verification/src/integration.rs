//! Choices of the integration service that do not need the network: the
//! candlestick intervals it asks the crawler for, and which writer channel
//! each record of a crawled message goes to.
use vstd::prelude::*;

use crate::config::dynamic::lemma_push_contains;
use crate::naming::{writer_key, writer_key_spec};
use crate::text::{contains_str, parse_u64, parse_unsigned_spec, str_views};

verus! {

/// The (symbol, interval) pairs of a candlestick crawl: every symbol with
/// the period read as a decimal `u64`. Without symbols the list is empty
/// and the period is not read. With symbols the period must parse (the
/// crawl stops on one that does not).
pub fn candlestick_intervals(symbols: Option<&Vec<String>>, period: &str) -> (r: Vec<(String, usize)>)
    requires
        symbols is Some ==> parse_unsigned_spec(period@, 0xffff_ffff_ffff_ffff) is Some,
    ensures
        symbols is None ==> r@.len() == 0,
        symbols is Some ==> {
            let s = symbols->0;
            let p = parse_unsigned_spec(period@, 0xffff_ffff_ffff_ffff)->0;
            &&& r@.len() == s@.len()
            &&& forall|i: int| 0 <= i < r@.len() ==> (#[trigger] r@[i]).0@ == s@[i]@ && r@[i].1 == (p as u64) as usize
        },
{
    let mut out: Vec<(String, usize)> = Vec::new();
    match symbols {
        None => out,
        Some(list) => {
            let p = match parse_u64(period) {
                Some(p) => p,
                None => {
                    return out;
                },
            };
            let mut i: usize = 0;
            while i < list.len()
                invariant
                    i <= list@.len(),
                    out@.len() == i,
                    parse_unsigned_spec(period@, 0xffff_ffff_ffff_ffff) == Some(p as nat),
                    forall|j: int| 0 <= j < i ==> (#[trigger] out@[j]).0@ == list@[j]@ && out@[j].1 == p as usize,
                decreases list@.len() - i,
            {
                out.push((list[i].clone(), p as usize));
                i = i + 1;
            }
            out
        },
    }
}

// ---------------------------------------------------------------------------
// Keeping and routing the records of a crawled message
// ---------------------------------------------------------------------------

/// The records that were encoded, in order.
pub open spec fn kept_records_spec(s: Seq<Option<(String, Vec<u8>)>>) -> Seq<(String, Vec<u8>)>
    decreases s.len(),
{
    if s.len() == 0 {
        Seq::empty()
    } else {
        let rest = kept_records_spec(s.drop_last());
        match s.last() {
            Some(e) => rest.push(e),
            None => rest,
        }
    }
}

/// Keeping the encoded records drops exactly the messages that failed to
/// encode: the kept records are the `Some` entries of the batch, in order
/// (as `filter_map` gives them), so every encoded record is kept, even one
/// whose symbol an earlier record already had.
pub proof fn lemma_kept_records_are_the_encoded(s: Seq<Option<(String, Vec<u8>)>>)
    ensures
        kept_records_spec(s) == s.filter_map(|o: Option<(String, Vec<u8>)>| o),
        kept_records_spec(s).len() <= s.len(),
        forall|i: int| 0 <= i < s.len() && (#[trigger] s[i]) is Some ==> kept_records_spec(s).contains(s[i]->0),
    decreases s.len(),
{
    if s.len() > 0 {
        let rest = s.drop_last();
        lemma_kept_records_are_the_encoded(rest);
        match s.last() {
            Some(e) => {
                assert(kept_records_spec(s) =~= rest.filter_map(|o: Option<(String, Vec<u8>)>| o) + seq![e]);
            },
            None => {},
        }
        assert forall|i: int| 0 <= i < s.len() && (#[trigger] s[i]) is Some implies kept_records_spec(s).contains(s[i]->0) by {
            if i < s.len() - 1 {
                assert(rest[i] == s[i]);
                let k = kept_records_spec(rest);
                let j = choose|j: int| 0 <= j < k.len() && k[j] == s[i]->0;
                assert(kept_records_spec(s)[j] == s[i]->0);
            } else {
                assert(kept_records_spec(s).last() == s[i]->0);
            }
        }
    }
}

/// The encoded records of a batch of messages, in order; messages that
/// failed to encode are skipped.
pub fn kept_records(encoded: Vec<Option<(String, Vec<u8>)>>) -> (r: Vec<(String, Vec<u8>)>)
    ensures
        r@ == kept_records_spec(encoded@),
        r@.len() <= encoded@.len(),
{
    let mut out: Vec<(String, Vec<u8>)> = Vec::new();
    let mut rest = encoded;
    let ghost all = rest@;
    let mut i: usize = 0;
    let n = rest.len();
    while i < n
        invariant
            n == all.len(),
            i <= n,
            rest@ == all.skip(i as int),
            out@ == kept_records_spec(all.take(i as int)),
            out@.len() <= i,
        decreases n - i,
    {
        let e = rest.remove(0);
        assert(all.take(i + 1).drop_last() =~= all.take(i as int));
        assert(e == all[i as int]);
        match e {
            Some(rec) => out.push(rec),
            None => {},
        }
        i = i + 1;
        assert(rest@ =~= all.skip(i as int));
    }
    assert(all.take(n as int) =~= all);
    out
}

/// The keys of a sequence of routed records, in order.
pub open spec fn routed_key_seq(s: Seq<(String, Vec<u8>, bool)>) -> Seq<Seq<char>> {
    s.map_values(|e: (String, Vec<u8>, bool)| e.0@)
}

/// The keys of a sequence of routed records.
pub open spec fn routed_keys(s: Seq<(String, Vec<u8>, bool)>) -> Set<Seq<char>> {
    routed_key_seq(s).to_set()
}

/// The writer channels the integration service has opened, by key.
pub struct WriterKeys {
    keys: Vec<String>,
}

impl WriterKeys {
    /// The keys of the open writers.
    pub closed spec fn keys(self) -> Set<Seq<char>> {
        str_views(self.keys@).to_set()
    }

    /// No writer is open.
    pub fn new() -> (r: WriterKeys)
        ensures
            r.keys() == Set::<Seq<char>>::empty(),
    {
        let r = WriterKeys { keys: Vec::new() };
        assert(str_views(r.keys@) =~= Seq::<Seq<char>>::empty());
        r
    }

    /// Whether a writer is open under `key`.
    pub fn contains(&self, key: &str) -> (r: bool)
        ensures
            r == self.keys().contains(key@),
    {
        contains_str(&self.keys, key)
    }

    /// Each record of a message of `exchange`, `market_type` and
    /// `msg_type`, with the key of the writer of its symbol (see
    /// [`writer_key_spec`]) and whether that writer is to be opened: it is
    /// when no writer was open under the key and no earlier record of the
    /// batch has it. The writers of all the batch's keys are then open.
    pub fn route_records(
        &mut self,
        exchange: &str,
        market_type: &str,
        msg_type: &str,
        period: &str,
        records: Vec<(String, Vec<u8>)>,
    ) -> (r: Vec<(String, Vec<u8>, bool)>)
        ensures
            r@.len() == records@.len(),
            forall|i: int| 0 <= i < r@.len() ==> {
                &&& (#[trigger] r@[i]).0@ == writer_key_spec(exchange@, market_type@, msg_type@, records@[i].0@, period@)
                &&& r@[i].1 == records@[i].1
                &&& (r@[i].2 <==> (!old(self).keys().contains(r@[i].0@) && !routed_keys(r@.take(i)).contains(r@[i].0@)))
            },
            final(self).keys() == old(self).keys().union(routed_keys(r@)),
    {
        let ghost k0 = self.keys();
        let ghost all = records@;
        let mut out: Vec<(String, Vec<u8>, bool)> = Vec::new();
        let mut rest = records;
        let n = rest.len();
        let mut i: usize = 0;
        assert(routed_keys(out@) =~= Set::<Seq<char>>::empty());
        assert(k0.union(Set::<Seq<char>>::empty()) =~= k0);
        while i < n
            invariant
                n == all.len(),
                i <= n,
                rest@ == all.skip(i as int),
                out@.len() == i,
                self.keys() == k0.union(routed_keys(out@)),
                forall|j: int| 0 <= j < i ==> {
                    &&& (#[trigger] out@[j]).0@ == writer_key_spec(exchange@, market_type@, msg_type@, all[j].0@, period@)
                    &&& out@[j].1 == all[j].1
                    &&& (out@[j].2 <==> (!k0.contains(out@[j].0@) && !routed_keys(out@.take(j)).contains(out@[j].0@)))
                },
            decreases n - i,
        {
            let (symbol, data) = rest.remove(0);
            assert(symbol == all[i as int].0 && data == all[i as int].1);
            let key = writer_key(exchange, market_type, msg_type, symbol.as_str(), period);
            let known = contains_str(&self.keys, key.as_str());
            let ghost pre = out@;
            let ghost kv = key@;
            if !known {
                let ghost before = str_views(self.keys@);
                let k2 = key.clone();
                self.keys.push(k2);
                proof {
                    assert(str_views(self.keys@) =~= before.push(kv));
                    lemma_push_contains(before, kv);
                    assert(str_views(self.keys@).to_set() =~= before.to_set().insert(kv));
                }
            } else {
                assert(self.keys().insert(kv) =~= self.keys());
            }
            out.push((key, data, !known));
            proof {
                assert(routed_key_seq(out@) =~= routed_key_seq(pre).push(kv));
                assert forall|x: Seq<char>| routed_keys(out@).contains(x) <==> routed_keys(pre).insert(kv).contains(x) by {
                    assert(routed_keys(out@).contains(x) == routed_key_seq(out@).contains(x));
                    assert(routed_keys(pre).contains(x) == routed_key_seq(pre).contains(x));
                    lemma_push_contains(routed_key_seq(pre), kv);
                }
                assert(routed_keys(out@) =~= routed_keys(pre).insert(kv));
                assert(self.keys() =~= k0.union(routed_keys(out@)));
                assert(out@.take(i as int) =~= pre);
                assert forall|j: int| 0 <= j < i implies #[trigger] out@.take(j) == pre.take(j) by {
                    assert(out@.take(j) =~= pre.take(j));
                }
            }
            i = i + 1;
            assert(rest@ =~= all.skip(i as int));
        }
        out
    }
}

} // verus!
