//! The set of subscription tasks that a watched configuration file asks for:
//! when the file changes, tasks of streams no longer listed are cleaned up
//! and tasks of newly listed streams are registered.
use vstd::prelude::*;

use crate::assoc::{
    assoc_map, distinct_keys, lemma_assoc_absent, lemma_assoc_dom, lemma_assoc_index,
    lemma_assoc_push, lemma_assoc_remove, lemma_assoc_update,
};
use crate::market::MarketDataArg;

verus! {

/// The view of a market-data argument.
pub type ArgView = (Seq<char>, Seq<char>, Seq<char>, Seq<char>);

/// The views of a sequence of market-data arguments.
pub open spec fn arg_views(s: Seq<MarketDataArg>) -> Seq<ArgView> {
    s.map_values(|a: MarketDataArg| a@)
}

/// The keys of a sequence of entries.
pub open spec fn entry_keys<H>(s: Seq<(ArgView, H)>) -> Seq<ArgView> {
    s.map_values(|e: (ArgView, H)| e.0)
}

/// The running task of each stream, keyed by its argument; `H` is a task handle.
pub struct TaskRegistry<H> {
    entries: Vec<(MarketDataArg, H)>,
}

/// The streams that a configuration change adds and removes.
pub struct ConfigUpdate {
    pub added: Vec<MarketDataArg>,
    pub removed: Vec<MarketDataArg>,
}

/// Cleaning up `args` in order: the map that remains and the handles taken
/// out, one for each argument that was still present when its turn came.
pub open spec fn cleanup_spec<H>(m: Map<ArgView, H>, args: Seq<ArgView>) -> (Map<ArgView, H>, Seq<H>)
    decreases args.len(),
{
    if args.len() == 0 {
        (m, Seq::empty())
    } else {
        let a = args[0];
        let rest = cleanup_spec(m.remove(a), args.drop_first());
        if m.dom().contains(a) {
            (rest.0, seq![m[a]] + rest.1)
        } else {
            rest
        }
    }
}

impl<H> TaskRegistry<H> {
    /// The entries as (argument view, handle) pairs.
    pub closed spec fn entry_views(self) -> Seq<(ArgView, H)> {
        self.entries@.map_values(|e: (MarketDataArg, H)| (e.0@, e.1))
    }

    /// The handle registered for each stream.
    pub closed spec fn tasks(self) -> Map<ArgView, H> {
        assoc_map(self.entry_views())
    }

    /// No stream is registered twice.
    pub closed spec fn wf(self) -> bool {
        distinct_keys(self.entry_views())
    }

    /// An empty registry.
    pub fn new() -> (r: Self)
        ensures
            r.wf(),
            r.tasks() == Map::<ArgView, H>::empty(),
    {
        let r = TaskRegistry { entries: Vec::new() };
        assert(r.entry_views() =~= Seq::<(ArgView, H)>::empty());
        r
    }

    /// The number of registered streams.
    pub fn len(&self) -> (n: usize)
        requires
            self.wf(),
        ensures
            n == self.tasks().dom().len(),
    {
        proof {
            self.lemma_dom_len();
        }
        self.entries.len()
    }

    proof fn lemma_dom_len(self)
        requires
            self.wf(),
        ensures
            self.tasks().dom().len() == self.entries@.len(),
    {
        let s = self.entry_views();
        let keys = entry_keys(s);
        assert forall|k: ArgView| self.tasks().dom().contains(k) <==> keys.to_set().contains(k) by {
            lemma_assoc_dom(s, k);
            if self.tasks().dom().contains(k) {
                let i = choose|i: int| 0 <= i < s.len() && s[i].0 == k;
                assert(keys[i] == k);
            }
            if keys.to_set().contains(k) {
                let i = choose|i: int| 0 <= i < keys.len() && keys[i] == k;
                assert(s[i].0 == k);
            }
        }
        assert(self.tasks().dom() =~= keys.to_set());
        assert forall|a: int, b: int| 0 <= a < keys.len() && 0 <= b < keys.len() && a != b implies keys[a] != keys[b] by {
            assert(keys[a] == s[a].0);
            assert(keys[b] == s[b].0);
        }
        assert(keys.no_duplicates());
        keys.unique_seq_to_set();
    }

    /// The index of the entry for `arg`, if any.
    fn find(&self, arg: &MarketDataArg) -> (r: Option<usize>)
        ensures
            r matches Some(i) ==> i < self.entries@.len() && self.entries@[i as int].0@ == arg@,
            r is None ==> forall|i: int| 0 <= i < self.entries@.len() ==> self.entries@[i].0@ != arg@,
    {
        let mut i: usize = 0;
        while i < self.entries.len()
            invariant
                i <= self.entries@.len(),
                forall|j: int| 0 <= j < i ==> self.entries@[j].0@ != arg@,
            decreases self.entries@.len() - i,
        {
            if self.entries[i].0.equals(arg) {
                return Some(i);
            }
            i = i + 1;
        }
        None
    }

    /// Whether a task is registered for `arg`.
    pub fn contains(&self, arg: &MarketDataArg) -> (r: bool)
        requires
            self.wf(),
        ensures
            r == self.tasks().dom().contains(arg@),
    {
        let f = self.find(arg);
        proof {
            lemma_assoc_dom(self.entry_views(), arg@);
            if f is None {
                assert forall|i: int| 0 <= i < self.entry_views().len() implies self.entry_views()[i].0 != arg@ by {
                    assert(self.entry_views()[i].0 == self.entries@[i].0@);
                }
            } else {
                let i = f->0 as int;
                assert(self.entry_views()[i].0 == arg@);
            }
        }
        f.is_some()
    }

    /// The registered streams.
    pub fn keys(&self) -> (r: Vec<MarketDataArg>)
        requires
            self.wf(),
        ensures
            forall|k: ArgView| self.tasks().dom().contains(k) <==> arg_views(r@).contains(k),
            arg_views(r@).no_duplicates(),
    {
        let mut r: Vec<MarketDataArg> = Vec::new();
        let mut i: usize = 0;
        while i < self.entries.len()
            invariant
                self.wf(),
                i <= self.entries@.len(),
                arg_views(r@) == entry_keys(self.entry_views().take(i as int)),
            decreases self.entries@.len() - i,
        {
            let a = self.entries[i].0.duplicate();
            let ghost old_r = arg_views(r@);
            let ghost ev = self.entry_views();
            assert(ev[i as int].0 == self.entries@[i as int].0@);
            r.push(a);
            assert(arg_views(r@) =~= old_r.push(a@));
            assert(entry_keys(ev.take(i + 1)) =~= entry_keys(ev.take(i as int)).push(ev[i as int].0));
            i = i + 1;
        }
        let ghost s = self.entry_views();
        assert(s.take(i as int) =~= s);
        assert forall|k: ArgView| self.tasks().dom().contains(k) <==> arg_views(r@).contains(k) by {
            lemma_assoc_dom(s, k);
            if self.tasks().dom().contains(k) {
                let j = choose|j: int| 0 <= j < s.len() && s[j].0 == k;
                assert(arg_views(r@)[j] == k);
            }
            if arg_views(r@).contains(k) {
                let j = choose|j: int| 0 <= j < arg_views(r@).len() && arg_views(r@)[j] == k;
                assert(s[j].0 == k);
            }
        }
        assert forall|a: int, b: int| 0 <= a < arg_views(r@).len() && 0 <= b < arg_views(r@).len() && a != b
            implies arg_views(r@)[a] != arg_views(r@)[b] by {
            assert(arg_views(r@)[a] == s[a].0);
            assert(arg_views(r@)[b] == s[b].0);
        }
        r
    }

    /// Registers `handle` as the task of `arg`, replacing any earlier one.
    pub fn register(&mut self, arg: MarketDataArg, handle: H)
        requires
            old(self).wf(),
        ensures
            final(self).wf(),
            final(self).tasks() == old(self).tasks().insert(arg@, handle),
    {
        let ghost a = arg@;
        match self.find(&arg) {
            Some(i) => {
                let ghost s = self.entry_views();
                proof {
                    lemma_assoc_update(s, i as int, handle);
                }
                self.entries.set(i, (arg, handle));
                assert(self.entry_views() =~= s.update(i as int, (s[i as int].0, handle)));
            },
            None => {
                let ghost s = self.entry_views();
                proof {
                    assert forall|j: int| 0 <= j < s.len() implies s[j].0 != a by {
                        assert(s[j].0 == self.entries@[j].0@);
                    }
                    lemma_assoc_push(s, a, handle);
                }
                self.entries.push((arg, handle));
                assert(self.entry_views() =~= s.push((a, handle)));
            },
        }
    }

    /// Takes out the task of `arg`, if one is registered.
    pub fn remove(&mut self, arg: &MarketDataArg) -> (r: Option<H>)
        requires
            old(self).wf(),
        ensures
            final(self).wf(),
            final(self).tasks() == old(self).tasks().remove(arg@),
            r is Some <==> old(self).tasks().dom().contains(arg@),
            r matches Some(h) ==> h == old(self).tasks()[arg@],
    {
        let ghost s = self.entry_views();
        match self.find(arg) {
            Some(i) => {
                proof {
                    assert(s[i as int].0 == arg@);
                    lemma_assoc_index(s, i as int);
                    lemma_assoc_remove(s, i as int);
                }
                let e = self.entries.remove(i);
                assert(self.entry_views() =~= s.remove(i as int));
                Some(e.1)
            },
            None => {
                proof {
                    assert forall|j: int| 0 <= j < s.len() implies s[j].0 != arg@ by {
                        assert(s[j].0 == self.entries@[j].0@);
                    }
                    lemma_assoc_absent(s, arg@);
                    assert(assoc_map(s).remove(arg@) =~= assoc_map(s));
                }
                None
            },
        }
    }

    /// Takes out the tasks of `args`, in order, and returns their handles so
    /// that the caller can stop them.
    pub fn cleanup(&mut self, args: &Vec<MarketDataArg>) -> (r: Vec<H>)
        requires
            old(self).wf(),
        ensures
            final(self).wf(),
            (final(self).tasks(), r@) == cleanup_spec(old(self).tasks(), arg_views(args@)),
    {
        let ghost m0 = self.tasks();
        let ghost all = arg_views(args@);
        let mut out: Vec<H> = Vec::new();
        let mut k: usize = 0;
        assert(all.skip(0) =~= all);
        while k < args.len()
            invariant
                self.wf(),
                k <= args@.len(),
                all == arg_views(args@),
                cleanup_spec(m0, all).0 == cleanup_spec(self.tasks(), all.skip(k as int)).0,
                cleanup_spec(m0, all).1 == out@ + cleanup_spec(self.tasks(), all.skip(k as int)).1,
            decreases args@.len() - k,
        {
            let ghost before = self.tasks();
            let ghost out_before = out@;
            assert(all.skip(k as int).drop_first() =~= all.skip(k as int + 1));
            assert(all.skip(k as int)[0] == args@[k as int]@);
            match self.remove(&args[k]) {
                Some(h) => {
                    out.push(h);
                    assert(out@ =~= out_before + seq![before[args@[k as int]@]]);
                },
                None => {},
            }
            k = k + 1;
            assert(cleanup_spec(m0, all).1 =~= out@ + cleanup_spec(self.tasks(), all.skip(k as int)).1);
        }
        assert(all.skip(k as int) =~= Seq::<ArgView>::empty());
        assert(out@ =~= out@ + Seq::<H>::empty());
        out
    }

    /// What a new configuration listing `desired` changes: the streams to add
    /// (listed but not registered, each once) and the streams to remove
    /// (registered but no longer listed).
    pub fn on_config_update(&self, desired: &Vec<MarketDataArg>) -> (r: ConfigUpdate)
        requires
            self.wf(),
        ensures
            arg_views(r.added@).no_duplicates(),
            arg_views(r.removed@).no_duplicates(),
            forall|k: ArgView|
                #![trigger arg_views(r.added@).contains(k)]
                #![trigger arg_views(desired@).contains(k)]
                arg_views(r.added@).contains(k) <==> (arg_views(desired@).contains(k)
                    && !self.tasks().dom().contains(k)),
            forall|k: ArgView|
                #![trigger arg_views(r.removed@).contains(k)]
                #![trigger self.tasks().dom().contains(k)]
                arg_views(r.removed@).contains(k) <==> (self.tasks().dom().contains(k)
                    && !arg_views(desired@).contains(k)),
    {
        let mut added: Vec<MarketDataArg> = Vec::new();
        let mut i: usize = 0;
        while i < desired.len()
            invariant
                self.wf(),
                i <= desired@.len(),
                arg_views(added@).no_duplicates(),
                forall|k: ArgView|
                    arg_views(added@).contains(k) <==> (arg_views(desired@).take(i as int).contains(k)
                        && !self.tasks().dom().contains(k)),
            decreases desired@.len() - i,
        {
            let a = &desired[i];
            let ghost av = a@;
            let ghost pre = arg_views(desired@).take(i as int);
            let known = self.contains(a);
            let dup = contains_arg(&added, a);
            let ghost before = arg_views(added@);
            proof {
                assert(arg_views(desired@).take(i + 1) =~= pre.push(av));
                lemma_push_contains(pre, av);
                lemma_push_contains(before, av);
            }
            if !known && !dup {
                added.push(a.duplicate());
                assert(arg_views(added@) =~= before.push(av));
                proof { lemma_push_no_duplicates(before, av); }
            }
            assert forall|k: ArgView|
                arg_views(added@).contains(k) <==> (arg_views(desired@).take(i + 1).contains(k)
                    && !self.tasks().dom().contains(k)) by {
                if k == av {
                } else {
                    assert(before.contains(k) <==> (pre.contains(k) && !self.tasks().dom().contains(k)));
                }
            }
            i = i + 1;
        }
        assert(arg_views(desired@).take(desired@.len() as int) =~= arg_views(desired@));
        let keys = self.keys();
        let mut removed: Vec<MarketDataArg> = Vec::new();
        let mut j: usize = 0;
        while j < keys.len()
            invariant
                self.wf(),
                j <= keys@.len(),
                arg_views(keys@).no_duplicates(),
                arg_views(removed@).no_duplicates(),
                forall|k: ArgView|
                    arg_views(removed@).contains(k) <==> (arg_views(keys@).take(j as int).contains(k)
                        && !arg_views(desired@).contains(k)),
            decreases keys@.len() - j,
        {
            let a = &keys[j];
            let ghost av = a@;
            let ghost pre = arg_views(keys@).take(j as int);
            let listed = contains_arg(desired, a);
            let ghost before = arg_views(removed@);
            proof {
                assert(arg_views(keys@).take(j + 1) =~= pre.push(av));
                lemma_push_contains(pre, av);
                lemma_push_contains(before, av);
                assert(arg_views(keys@)[j as int] == av);
                if pre.contains(av) {
                    let y = choose|y: int| 0 <= y < pre.len() && pre[y] == av;
                    assert(arg_views(keys@)[y] == arg_views(keys@)[j as int]);
                }
            }
            if !listed {
                removed.push(a.duplicate());
                assert(arg_views(removed@) =~= before.push(av));
                proof { lemma_push_no_duplicates(before, av); }
            }
            assert forall|k: ArgView|
                arg_views(removed@).contains(k) <==> (arg_views(keys@).take(j + 1).contains(k)
                    && !arg_views(desired@).contains(k)) by {
                if k == av {
                } else {
                    assert(before.contains(k) <==> (pre.contains(k) && !arg_views(desired@).contains(k)));
                }
            }
            j = j + 1;
        }
        assert(arg_views(keys@).take(keys@.len() as int) =~= arg_views(keys@));
        ConfigUpdate { added, removed }
    }
}

/// Membership after appending one element.
pub proof fn lemma_push_contains<A>(s: Seq<A>, x: A)
    ensures
        forall|k: A| s.push(x).contains(k) <==> (s.contains(k) || k == x),
{
    assert forall|k: A| s.push(x).contains(k) <==> (s.contains(k) || k == x) by {
        if s.push(x).contains(k) && k != x {
            let j = choose|j: int| 0 <= j < s.push(x).len() && s.push(x)[j] == k;
            assert(s[j] == k);
        }
        if s.contains(k) {
            let j = choose|j: int| 0 <= j < s.len() && s[j] == k;
            assert(s.push(x)[j] == k);
        }
        assert(s.push(x)[s.len() as int] == x);
    }
}

/// Appending an element that is not yet present keeps a sequence free of duplicates.
pub proof fn lemma_push_no_duplicates<A>(s: Seq<A>, x: A)
    requires
        s.no_duplicates(),
        !s.contains(x),
    ensures
        s.push(x).no_duplicates(),
{
    let p = s.push(x);
    assert forall|a: int, b: int| 0 <= a < p.len() && 0 <= b < p.len() && a != b implies p[a] != p[b] by {
        if a < s.len() {
            assert(p[a] == s[a]);
        }
        if b < s.len() {
            assert(p[b] == s[b]);
        }
    }
}

/// Whether some element of `v` equals `a`.
pub fn contains_arg(v: &Vec<MarketDataArg>, a: &MarketDataArg) -> (r: bool)
    ensures
        r == arg_views(v@).contains(a@),
{
    let mut i: usize = 0;
    while i < v.len()
        invariant
            i <= v@.len(),
            forall|j: int| 0 <= j < i ==> v@[j]@ != a@,
        decreases v@.len() - i,
    {
        if v[i].equals(a) {
            assert(arg_views(v@)[i as int] == a@);
            return true;
        }
        i = i + 1;
    }
    assert forall|j: int| 0 <= j < arg_views(v@).len() implies arg_views(v@)[j] != a@ by {
        assert(arg_views(v@)[j] == v@[j]@);
    }
    false
}

/// Cleaning up removes exactly the listed streams from the registry.
pub proof fn lemma_cleanup_dom<H>(m: Map<ArgView, H>, args: Seq<ArgView>)
    ensures
        cleanup_spec(m, args).0.dom() == m.dom().difference(args.to_set()),
    decreases args.len(),
{
    if args.len() > 0 {
        lemma_cleanup_dom(m.remove(args[0]), args.drop_first());
        assert forall|k: ArgView| args.to_set().contains(k) <==> (k == args[0] || args.drop_first().to_set().contains(k)) by {
            if args.contains(k) && k != args[0] {
                let j = choose|j: int| 0 <= j < args.len() && args[j] == k;
                assert(args.drop_first()[j - 1] == k);
            }
            if args.drop_first().contains(k) {
                let j = choose|j: int| 0 <= j < args.drop_first().len() && args.drop_first()[j] == k;
                assert(args[j + 1] == k);
            }
            assert(args[0] == args[0]);
        }
        assert(cleanup_spec(m, args).0.dom() =~= m.dom().difference(args.to_set()));
    } else {
        assert(cleanup_spec(m, args).0.dom() =~= m.dom().difference(args.to_set()));
    }
}

/// Every task taken out is handed back: cleaning up `args` returns the
/// handle of each distinct listed stream that was registered, once each,
/// and nothing else; as many handles as there are such streams.
pub proof fn lemma_cleanup_returns_every_task<H>(m: Map<ArgView, H>, args: Seq<ArgView>) -> (ks: Seq<ArgView>)
    ensures
        ks.no_duplicates(),
        ks.to_set() == args.to_set().intersect(m.dom()),
        cleanup_spec(m, args).1 == ks.map_values(|a: ArgView| m[a]),
        cleanup_spec(m, args).1.len() == args.to_set().intersect(m.dom()).len(),
    decreases args.len(),
{
    if args.len() == 0 {
        assert(args.to_set().intersect(m.dom()) =~= Set::<ArgView>::empty());
        let ks = Seq::<ArgView>::empty();
        assert(ks.to_set() =~= Set::<ArgView>::empty());
        assert(ks.map_values(|a: ArgView| m[a]) =~= Seq::<H>::empty());
        ks
    } else {
        let a = args[0];
        let rest = args.drop_first();
        let m1 = m.remove(a);
        let ks1 = lemma_cleanup_returns_every_task(m1, rest);
        assert forall|k: ArgView| args.to_set().contains(k) <==> (k == a || rest.to_set().contains(k)) by {
            if args.contains(k) && k != a {
                let j = choose|j: int| 0 <= j < args.len() && args[j] == k;
                assert(rest[j - 1] == k);
            }
            if rest.contains(k) {
                let j = choose|j: int| 0 <= j < rest.len() && rest[j] == k;
                assert(args[j + 1] == k);
            }
            assert(args[0] == a);
        }
        let ks = if m.dom().contains(a) {
            let ks = seq![a] + ks1;
            assert(!ks1.contains(a)) by {
                if ks1.contains(a) {
                    let j = choose|j: int| 0 <= j < ks1.len() && ks1[j] == a;
                    assert(ks1.to_set().contains(a));
                }
            }
            assert forall|i: int, j: int| 0 <= i < ks.len() && 0 <= j < ks.len() && i != j implies ks[i] != ks[j] by {
                if i == 0 && j > 0 {
                    assert(ks[j] == ks1[j - 1]);
                    assert(ks1.contains(ks1[j - 1]));
                } else if j == 0 && i > 0 {
                    assert(ks[i] == ks1[i - 1]);
                    assert(ks1.contains(ks1[i - 1]));
                } else if i > 0 && j > 0 {
                    assert(ks[i] == ks1[i - 1] && ks[j] == ks1[j - 1]);
                }
            }
            assert forall|k: ArgView| ks.to_set().contains(k) <==> args.to_set().intersect(m.dom()).contains(k) by {
                if ks.contains(k) && k != a {
                    let j = choose|j: int| 0 <= j < ks.len() && ks[j] == k;
                    assert(ks1[j - 1] == k);
                    assert(ks1.to_set().contains(k));
                }
                if k != a && args.to_set().intersect(m.dom()).contains(k) {
                    assert(rest.to_set().intersect(m1.dom()).contains(k));
                    assert(ks1.contains(k));
                    let j = choose|j: int| 0 <= j < ks1.len() && ks1[j] == k;
                    assert(ks[j + 1] == k);
                }
                if k == a {
                    assert(ks[0] == a);
                }
            }
            assert(ks.to_set() =~= args.to_set().intersect(m.dom()));
            assert forall|i: int| 0 <= i < ks1.len() implies #[trigger] m1[ks1[i]] == m[ks1[i]] by {
                assert(ks1.contains(ks1[i]));
                assert(ks1.to_set().contains(ks1[i]));
            }
            assert(ks.map_values(|x: ArgView| m[x]) =~= seq![m[a]] + ks1.map_values(|x: ArgView| m1[x]));
            ks
        } else {
            assert(m1 =~= m);
            assert forall|k: ArgView| ks1.to_set().contains(k) <==> args.to_set().intersect(m.dom()).contains(k) by {}
            assert(ks1.to_set() =~= args.to_set().intersect(m.dom()));
            ks1
        };
        ks.unique_seq_to_set();
        ks
    }
}

/// A configuration change reaches the listed streams: when the registry
/// holds `m`, and `added` and `removed` are what `on_config_update` returns
/// for the list `desired`, then cleaning up `removed` and registering every
/// stream of `added` leaves a task for exactly the streams of `desired`;
/// nothing added was running before, and everything removed was.
pub proof fn lemma_config_update_reaches<H>(
    m: Map<ArgView, H>,
    desired: Seq<ArgView>,
    added: Seq<ArgView>,
    removed: Seq<ArgView>,
)
    requires
        forall|k: ArgView| added.contains(k) <==> (desired.contains(k) && !m.dom().contains(k)),
        forall|k: ArgView| removed.contains(k) <==> (m.dom().contains(k) && !desired.contains(k)),
    ensures
        cleanup_spec(m, removed).0.dom().union(added.to_set()) == desired.to_set(),
        added.to_set().disjoint(m.dom()),
        removed.to_set().subset_of(m.dom()),
{
    lemma_cleanup_dom(m, removed);
    assert(cleanup_spec(m, removed).0.dom().union(added.to_set()) =~= desired.to_set());
}


/// A second update from an unchanged configuration changes nothing: after
/// the changes of a first update for `desired` are applied (the streams of
/// `removed` cleaned up, those of `added` registered, leaving a registry
/// whose streams are those of `m2`), an update for the same `desired`
/// adds and removes no stream.
pub proof fn lemma_config_update_settles<H>(
    m: Map<ArgView, H>,
    desired: Seq<ArgView>,
    added: Seq<ArgView>,
    removed: Seq<ArgView>,
    m2: Map<ArgView, H>,
    added2: Seq<ArgView>,
    removed2: Seq<ArgView>,
)
    requires
        forall|k: ArgView| added.contains(k) <==> (desired.contains(k) && !m.dom().contains(k)),
        forall|k: ArgView| removed.contains(k) <==> (m.dom().contains(k) && !desired.contains(k)),
        m2.dom() == cleanup_spec(m, removed).0.dom().union(added.to_set()),
        forall|k: ArgView| added2.contains(k) <==> (desired.contains(k) && !m2.dom().contains(k)),
        forall|k: ArgView| removed2.contains(k) <==> (m2.dom().contains(k) && !desired.contains(k)),
    ensures
        added2.len() == 0,
        removed2.len() == 0,
{
    lemma_config_update_reaches(m, desired, added, removed);
    assert(m2.dom() == desired.to_set());
    if added2.len() > 0 {
        assert(added2.contains(added2[0]));
        assert(desired.to_set().contains(added2[0]));
    }
    if removed2.len() > 0 {
        assert(removed2.contains(removed2[0]));
        assert(m2.dom().contains(removed2[0]));
    }
}

} // verus!
