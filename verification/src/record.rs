//! The record file format of the recorder: each record is a two-byte
//! big-endian length followed by that many data bytes; files lie under
//! `./record/{day}/`.
use vstd::prelude::*;

use crate::config::dynamic::lemma_push_contains;
use crate::text::{contains_str, push_str, str_eq, str_views};

verus! {

/// The two length bytes of a record of `n` bytes: `n` truncated to 16 bits,
/// big-endian.
pub open spec fn length_prefix(n: nat) -> Seq<u8> {
    seq![((n % 65536) / 256) as u8, (n % 256) as u8]
}

/// The bytes of a signed data item.
pub open spec fn data_bytes(d: Seq<i8>) -> Seq<u8> {
    d.map_values(|x: i8| x as u8)
}

/// The encoding of one record.
pub open spec fn encode_record_spec(d: Seq<i8>) -> Seq<u8> {
    length_prefix(d.len()) + data_bytes(d)
}

/// The bytes that record `data` in a record file.
pub fn encode_record(data: &[i8]) -> (r: Vec<u8>)
    ensures
        r@ == encode_record_spec(data@),
{
    let n = data.len();
    let l: usize = n % 65536;
    let mut out: Vec<u8> = Vec::new();
    out.push((l / 256) as u8);
    out.push((l % 256) as u8);
    let mut i: usize = 0;
    while i < n
        invariant
            n == data@.len(),
            i <= n,
            out@ == length_prefix(n as nat) + data_bytes(data@.take(i as int)),
        decreases n - i,
    {
        let ghost before = out@;
        out.push(data[i] as u8);
        i = i + 1;
        assert(data_bytes(data@.take(i as int)) =~= data_bytes(data@.take(i - 1)).push(data@[i - 1] as u8));
        assert(out@ =~= length_prefix(n as nat) + data_bytes(data@.take(i as int)));
    }
    assert(data@.take(n as int) =~= data@);
    out
}

/// The `j`-th data byte of the record that starts at `pos`: past the end of
/// the file a reader keeps the last byte it read for that record, or zero
/// when it read none.
pub open spec fn record_item(b: Seq<u8>, pos: int, j: int) -> u8 {
    let s = pos + 2 + j;
    if s < b.len() {
        b[s]
    } else if b.len() > pos + 2 {
        b[b.len() - 1]
    } else {
        0
    }
}

/// The record that starts at `pos` and the position after it, or `None`
/// when fewer than two bytes are left.
pub open spec fn next_record_spec(b: Seq<u8>, pos: int) -> Option<(Seq<i8>, int)> {
    if pos + 2 > b.len() {
        None
    } else {
        let n = b[pos] as int * 256 + b[pos + 1] as int;
        let end = if pos + 2 + n <= b.len() { pos + 2 + n } else { b.len() as int };
        Some((Seq::new(n as nat, |j: int| record_item(b, pos, j) as i8), end))
    }
}

/// Reads the record that starts at `pos` of the file contents `bytes`.
pub fn next_record(bytes: &[u8], pos: usize) -> (r: Option<(Vec<i8>, usize)>)
    requires
        pos <= bytes@.len(),
    ensures
        r matches Some(x) ==> next_record_spec(bytes@, pos as int) == Some((x.0@, x.1 as int)),
        r is None ==> next_record_spec(bytes@, pos as int) is None,
{
    let len = bytes.len();
    if len - pos < 2 {
        return None;
    }
    let n: usize = bytes[pos] as usize * 256 + bytes[pos + 1] as usize;
    let mut data: Vec<i8> = Vec::new();
    let mut last: u8 = 0;
    let mut p: usize = pos + 2;
    let mut k: usize = 0;
    while k < n
        invariant
            len == bytes@.len(),
            pos + 2 <= len,
            n == bytes@[pos as int] as int * 256 + bytes@[pos + 1] as int,
            k <= n,
            p == if pos + 2 + k <= len { pos + 2 + k } else { len as int },
            last == if p > pos + 2 { bytes@[p - 1] } else { 0u8 },
            data@ == Seq::new(k as nat, |j: int| record_item(bytes@, pos as int, j) as i8),
        decreases n - k,
    {
        if p < len {
            last = bytes[p];
            p = p + 1;
        }
        assert(last == record_item(bytes@, pos as int, k as int));
        data.push(last as i8);
        k = k + 1;
        assert(data@ =~= Seq::new(k as nat, |j: int| record_item(bytes@, pos as int, j) as i8));
    }
    Some((data, p))
}

/// Decoding the encoding of a record gives it back, wherever it stands in
/// a file, and the reader moves past it.
pub proof fn lemma_record_roundtrip(prefix: Seq<u8>, d: Seq<i8>, rest: Seq<u8>)
    requires
        d.len() < 65536,
    ensures
        next_record_spec(prefix + encode_record_spec(d) + rest, prefix.len() as int)
            == Some((d, (prefix.len() + 2 + d.len()) as int)),
{
    let b = prefix + encode_record_spec(d) + rest;
    let pos = prefix.len() as int;
    let n = d.len() as int;
    assert(b[pos] == ((n % 65536) / 256) as u8);
    assert(b[pos + 1] == (n % 256) as u8);
    assert(b[pos] as int * 256 + b[pos + 1] as int == n);
    assert forall|j: int| 0 <= j < n implies record_item(b, pos, j) as i8 == d[j] by {
        assert(b[pos + 2 + j] == d[j] as u8);
        let x = d[j];
        assert(((x as u8) as i8) == x) by (bit_vector);
    }
    assert(Seq::new(n as nat, |j: int| record_item(b, pos, j) as i8) =~= d);
}

/// A file holding the records `ds`, written one after the other.
pub open spec fn encode_all(ds: Seq<Seq<i8>>) -> Seq<u8>
    decreases ds.len(),
{
    if ds.len() == 0 {
        Seq::empty()
    } else {
        encode_all(ds.drop_last()) + encode_record_spec(ds.last())
    }
}

/// Where the `k`-th record of `ds` starts in their file.
pub open spec fn record_offset(ds: Seq<Seq<i8>>, k: int) -> int {
    encode_all(ds.take(k)).len() as int
}

/// Writing two runs of records one after the other gives the file of both.
proof fn lemma_encode_all_append(a: Seq<Seq<i8>>, b: Seq<Seq<i8>>)
    ensures
        encode_all(a + b) == encode_all(a) + encode_all(b),
    decreases b.len(),
{
    if b.len() == 0 {
        assert(a + b =~= a);
        assert(encode_all(a) + encode_all(b) =~= encode_all(a));
    } else {
        lemma_encode_all_append(a, b.drop_last());
        assert((a + b).drop_last() =~= a + b.drop_last());
        assert((a + b).last() == b.last());
        assert(encode_all(a) + encode_all(b) =~= encode_all(a) + encode_all(b.drop_last()) + encode_record_spec(b.last()));
    }
}

/// The records a reader gets from `pos` on, one `next` after another,
/// until it gets nothing.
pub open spec fn read_all(b: Seq<u8>, pos: int) -> Seq<Seq<i8>>
    decreases b.len() - pos,
{
    if pos < 0 || pos + 2 > b.len() {
        Seq::empty()
    } else {
        match next_record_spec(b, pos) {
            Some((d, end)) => if pos < end <= b.len() {
                seq![d] + read_all(b, end)
            } else {
                Seq::empty()
            },
            None => Seq::empty(),
        }
    }
}

/// A file of records reads back as written: from the start of its `k`-th
/// record the reader gets that record and moves to the next one, and at
/// the end of the file it gets nothing more.
pub proof fn lemma_file_reads_back(ds: Seq<Seq<i8>>)
    requires
        forall|i: int| 0 <= i < ds.len() ==> (#[trigger] ds[i]).len() < 65536,
    ensures
        forall|k: int| 0 <= k < ds.len() ==> #[trigger] next_record_spec(encode_all(ds), record_offset(ds, k))
            == Some((ds[k], record_offset(ds, k + 1))),
        next_record_spec(encode_all(ds), encode_all(ds).len() as int) is None,
{
    assert forall|k: int| 0 <= k < ds.len() implies #[trigger] next_record_spec(encode_all(ds), record_offset(ds, k))
        == Some((ds[k], record_offset(ds, k + 1))) by {
        let pre = ds.take(k);
        let one = seq![ds[k]];
        let post = ds.skip(k + 1);
        assert(ds =~= pre + one + post);
        lemma_encode_all_append(pre + one, post);
        lemma_encode_all_append(pre, one);
        assert(one.drop_last() =~= Seq::<Seq<i8>>::empty());
        assert(encode_all(one.drop_last()) =~= Seq::<u8>::empty());
        assert(one.last() == ds[k]);
        assert(encode_all(one) =~= encode_record_spec(ds[k]));
        assert(ds.take(k + 1) =~= pre + one);
        lemma_record_roundtrip(encode_all(pre), ds[k], encode_all(post));
        assert(encode_all(ds) == encode_all(pre) + encode_record_spec(ds[k]) + encode_all(post));
    }
}

/// Reading a file of records from its start gives back exactly the records
/// written to it, in order.
pub proof fn lemma_file_reads_back_all(ds: Seq<Seq<i8>>)
    requires
        forall|i: int| 0 <= i < ds.len() ==> (#[trigger] ds[i]).len() < 65536,
    ensures
        read_all(encode_all(ds), 0) == ds,
{
    lemma_file_reads_back(ds);
    lemma_reads_from(ds, 0);
    assert(ds.take(0) =~= Seq::<Seq<i8>>::empty());
    assert(ds.skip(0) =~= ds);
}

/// From the start of the `k`-th record a reader gets the records from the
/// `k`-th on.
proof fn lemma_reads_from(ds: Seq<Seq<i8>>, k: int)
    requires
        0 <= k <= ds.len(),
        forall|i: int| 0 <= i < ds.len() ==> (#[trigger] ds[i]).len() < 65536,
        forall|i: int| 0 <= i < ds.len() ==> #[trigger] next_record_spec(encode_all(ds), record_offset(ds, i))
            == Some((ds[i], record_offset(ds, i + 1))),
        next_record_spec(encode_all(ds), encode_all(ds).len() as int) is None,
    ensures
        read_all(encode_all(ds), record_offset(ds, k)) == ds.skip(k),
    decreases ds.len() - k,
{
    let b = encode_all(ds);
    if k == ds.len() {
        assert(ds.take(k) =~= ds);
        assert(ds.skip(k) =~= Seq::<Seq<i8>>::empty());
    } else {
        lemma_reads_from(ds, k + 1);
        lemma_offset_step(ds, k);
        assert(next_record_spec(b, record_offset(ds, k)) == Some((ds[k], record_offset(ds, k + 1))));
        assert(ds.skip(k) =~= seq![ds[k]] + ds.skip(k + 1));
    }
}

/// Each record moves the offset on by its length and two, within the file.
proof fn lemma_offset_step(ds: Seq<Seq<i8>>, k: int)
    requires
        0 <= k < ds.len(),
    ensures
        record_offset(ds, k + 1) == record_offset(ds, k) + 2 + ds[k].len(),
        record_offset(ds, k) >= 0,
        record_offset(ds, k + 1) <= encode_all(ds).len(),
{
    assert(ds.take(k + 1).drop_last() =~= ds.take(k));
    assert(ds =~= ds.take(k + 1) + ds.skip(k + 1));
    lemma_encode_all_append(ds.take(k + 1), ds.skip(k + 1));
}

/// A record file's contents and the position of the next record to read.
pub struct ReadData {
    bytes: Vec<u8>,
    pos: usize,
}

impl ReadData {
    /// A reader at the start of the file contents `bytes`.
    pub fn from_bytes(bytes: Vec<u8>) -> (r: ReadData)
        ensures
            r.wf(),
            r.contents() == bytes@,
            r.position() == 0,
    {
        ReadData { bytes, pos: 0 }
    }

    /// The file contents.
    pub closed spec fn contents(self) -> Seq<u8> {
        self.bytes@
    }

    /// Where the next record starts.
    pub closed spec fn position(self) -> int {
        self.pos as int
    }

    /// The reader's position lies within the contents.
    pub closed spec fn wf(self) -> bool {
        self.pos <= self.bytes@.len()
    }

    /// Reads the next record (see [`next_record_spec`]); `None` at the end.
    pub fn next(&mut self) -> (r: Option<Vec<i8>>)
        requires
            old(self).wf(),
        ensures
            final(self).wf(),
            final(self).contents() == old(self).contents(),
            match next_record_spec(old(self).contents(), old(self).position()) {
                Some((d, end)) => r matches Some(v) && v@ == d && final(self).position() == end,
                None => r is None && final(self).position() == old(self).position(),
            },
            r matches Some(v) ==> read_all(old(self).contents(), old(self).position())
                == seq![v@] + read_all(final(self).contents(), final(self).position()),
            r is None ==> read_all(old(self).contents(), old(self).position()) == Seq::<Seq<i8>>::empty(),
    {
        match next_record(self.bytes.as_slice(), self.pos) {
            Some((data, p)) => {
                self.pos = p;
                Some(data)
            },
            None => None,
        }
    }
}

/// `./record/{day}/`.
pub open spec fn record_dir_spec(day: Seq<char>) -> Seq<char> {
    "./record/"@ + day + "/"@
}

/// The directory of the records of `day` (formatted `%Y%m%d`).
pub fn record_dir(day: &str) -> (r: String)
    ensures
        r@ == record_dir_spec(day@),
{
    let mut s = String::new();
    push_str(&mut s, "./record/");
    push_str(&mut s, day);
    push_str(&mut s, "/");
    s
}

/// The record file of channel `filename` for `day`:
/// `./record/{day}/{filename}.csv`.
pub fn record_path(day: &str, filename: &str) -> (r: String)
    ensures
        r@ == record_dir_spec(day@) + filename@ + ".csv"@,
{
    let mut s = record_dir(day);
    push_str(&mut s, filename);
    push_str(&mut s, ".csv");
    s
}

/// `{filename}_{suffix}`: the key under which the writer looks up a file.
pub open spec fn file_key(filename: Seq<char>, suffix: Seq<char>) -> Seq<char> {
    filename + "_"@ + suffix
}

/// What the writer does with one received record.
pub enum FileStep {
    /// Append to the file kept under this key.
    Append(String),
    /// Open the channel's file of today, append to it, keep it under
    /// `keep_as`, and close the file kept under `drop_key` if there is one.
    Open { keep_as: String, drop_key: Option<String> },
}

/// The keys of the files the record writer holds open.
pub struct OpenFiles {
    keys: Vec<String>,
}

impl OpenFiles {
    /// The set of keys.
    pub closed spec fn keys(self) -> Set<Seq<char>> {
        str_views(self.keys@).to_set()
    }

    /// No file is open.
    pub fn new() -> (r: OpenFiles)
        ensures
            r.keys() == Set::<Seq<char>>::empty(),
    {
        let r = OpenFiles { keys: Vec::new() };
        assert(str_views(r.keys@) =~= Seq::<Seq<char>>::empty());
        r
    }

    /// Whether a file is kept under `key`.
    pub fn contains(&self, key: &str) -> (r: bool)
        ensures
            r == self.keys().contains(key@),
    {
        contains_str(&self.keys, key)
    }

    /// Keeps a file under `key`.
    pub fn insert(&mut self, key: String)
        ensures
            final(self).keys() == old(self).keys().insert(key@),
    {
        if !contains_str(&self.keys, key.as_str()) {
            let ghost before = str_views(self.keys@);
            let ghost k = key@;
            self.keys.push(key);
            assert(str_views(self.keys@) =~= before.push(k));
            assert forall|x: Seq<char>| before.push(k).to_set().contains(x) <==> before.to_set().insert(k).contains(x) by {
                lemma_push_contains(before, k);
            }
            assert(before.push(k).to_set() =~= before.to_set().insert(k));
        } else {
            assert(self.keys().insert(key@) =~= self.keys());
        }
    }

    /// Closes every file kept under `key`.
    pub fn remove(&mut self, key: &str)
        ensures
            final(self).keys() == old(self).keys().remove(key@),
    {
        let ghost before = str_views(self.keys@);
        let mut kept: Vec<String> = Vec::new();
        let mut i: usize = 0;
        while i < self.keys.len()
            invariant
                before == str_views(self.keys@),
                i <= self.keys@.len(),
                forall|x: Seq<char>| #[trigger] str_views(kept@).contains(x) <==> (x != key@ && before.take(i as int).contains(x)),
            decreases self.keys@.len() - i,
        {
            let ghost pre = str_views(kept@);
            let same = str_eq(self.keys[i].as_str(), key);
            if !same {
                let k = self.keys[i].clone();
                kept.push(k);
                assert(str_views(kept@) =~= pre.push(self.keys@[i as int]@));
            } else {
                assert(str_views(kept@) =~= pre);
            }
            assert(before.take(i + 1) =~= before.take(i as int).push(before[i as int]));
            assert forall|x: Seq<char>| #[trigger] str_views(kept@).contains(x) <==> (x != key@ && before.take(i + 1).contains(x)) by {
                lemma_push_contains(before.take(i as int), before[i as int]);
                lemma_push_contains(pre, self.keys@[i as int]@);
                assert(before[i as int] == self.keys@[i as int]@);
                assert(pre.contains(x) <==> (x != key@ && before.take(i as int).contains(x)));
                if same {
                    assert(str_views(kept@) == pre);
                } else {
                    assert(str_views(kept@) == pre.push(self.keys@[i as int]@));
                }
            }
            i = i + 1;
        }
        assert(before.take(before.len() as int) =~= before);
        self.keys = kept;
        assert(self.keys() =~= before.to_set().remove(key@));
    }

    /// One record of channel `filename` received at `stamp` (the time as
    /// the writer prints it), on day `today` whose previous day is
    /// `yesterday`: a file kept under `{filename}_{stamp}` is appended to;
    /// else the channel's file of today is opened and kept under `today`,
    /// and the file kept under `{filename}_{yesterday}`, if any, is closed.
    pub fn step(&mut self, filename: &str, stamp: &str, today: &str, yesterday: &str) -> (r: FileStep)
        ensures
            old(self).keys().contains(file_key(filename@, stamp@)) ==> {
                &&& r matches FileStep::Append(k) && k@ == file_key(filename@, stamp@)
                &&& final(self).keys() == old(self).keys()
            },
            !old(self).keys().contains(file_key(filename@, stamp@)) ==> {
                let kept = old(self).keys().insert(today@);
                let stale = file_key(filename@, yesterday@);
                &&& r matches FileStep::Open { keep_as, drop_key } && keep_as@ == today@
                    && (drop_key is Some <==> kept.contains(stale))
                    && (drop_key matches Some(d) ==> d@ == stale)
                &&& final(self).keys() == kept.remove(stale)
            },
    {
        let mut key = String::new();
        push_str(&mut key, filename);
        push_str(&mut key, "_");
        push_str(&mut key, stamp);
        assert(key@ =~= file_key(filename@, stamp@));
        if self.contains(key.as_str()) {
            return FileStep::Append(key);
        }
        let mut keep_as = String::new();
        push_str(&mut keep_as, today);
        let mut kept_key = String::new();
        push_str(&mut kept_key, today);
        assert(kept_key@ =~= today@);
        self.insert(kept_key);
        let mut stale = String::new();
        push_str(&mut stale, filename);
        push_str(&mut stale, "_");
        push_str(&mut stale, yesterday);
        assert(stale@ =~= file_key(filename@, yesterday@));
        assert(keep_as@ =~= today@);
        if self.contains(stale.as_str()) {
            self.remove(stale.as_str());
            FileStep::Open { keep_as, drop_key: Some(stale) }
        } else {
            assert(self.keys().remove(stale@) =~= self.keys());
            FileStep::Open { keep_as, drop_key: None }
        }
    }
}

} // verus!
