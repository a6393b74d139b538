//! The inference engine's state: registered rules in registration order, a
//! least-recently-used cache of rule results, and the provenance registry.
//!
//! The cache is keyed by a rule's name and the data generation (the
//! snapshot's transaction id) the result was computed at. It holds at most
//! its capacity of results (none at capacity 0, which disables it); when
//! full, the result used least recently makes room.

use vstd::prelude::*;
use crate::provenance::ProvenanceRegistry;
use crate::text::string_of;

verus! {

// ---------------------------------------------------------------------------
// Result cache
// ---------------------------------------------------------------------------

/// A cached result with its access stamp.
struct CacheEntry<R> {
    rule_name: String,
    generation: u64,
    result: R,
    last_accessed: u64,
}

/// The mathematical value of a cached result.
pub struct CachedView<R> {
    /// The rule that produced the result.
    pub rule: Seq<char>,
    /// The data generation the result was computed at.
    pub generation: u64,
    /// The result.
    pub result: R,
    /// The access stamp of the last insert or hit.
    pub last_accessed: u64,
}

/// The mathematical value of an [`InferenceCache`].
pub struct InferenceCacheView<R> {
    /// The cached results.
    pub entries: Seq<CachedView<R>>,
    /// The capacity.
    pub max_entries: nat,
    /// The last access stamp handed out.
    pub counter: u64,
}

/// A least-recently-used cache of inference results, keyed by rule name and
/// data generation.
pub struct InferenceCache<R> {
    entries: Vec<CacheEntry<R>>,
    max_entries: usize,
    access_counter: u64,
}

spec fn cached_view<R>(e: CacheEntry<R>) -> CachedView<R> {
    CachedView { rule: e.rule_name@, generation: e.generation, result: e.result, last_accessed: e.last_accessed }
}

impl<R> View for InferenceCache<R> {
    type V = InferenceCacheView<R>;

    closed spec fn view(&self) -> InferenceCacheView<R> {
        InferenceCacheView {
            entries: self.entries@.map_values(|e: CacheEntry<R>| cached_view(e)),
            max_entries: self.max_entries as nat,
            counter: self.access_counter,
        }
    }
}

/// Entry `i` holds the result of rule `rule` at generation `generation`.
pub open spec fn entry_at<R>(s: Seq<CachedView<R>>, rule: Seq<char>, generation: u64, i: int) -> bool {
    0 <= i < s.len() && s[i].rule == rule && s[i].generation == generation
}

/// Some entry holds the result of `rule` at `generation`.
pub open spec fn has_entry<R>(s: Seq<CachedView<R>>, rule: Seq<char>, generation: u64) -> bool {
    exists|i: int| entry_at(s, rule, generation, i)
}

/// The index of the entry for `rule` at `generation`.
pub open spec fn entry_index<R>(s: Seq<CachedView<R>>, rule: Seq<char>, generation: u64) -> int {
    choose|i: int| entry_at(s, rule, generation, i)
}

/// Entry `i` was used no later than any other.
pub open spec fn is_lru<R>(s: Seq<CachedView<R>>, i: int) -> bool {
    0 <= i < s.len() && forall|j: int| 0 <= j < s.len() ==> s[i].last_accessed <= #[trigger] s[j].last_accessed
}

/// The index of the least recently used entry.
pub open spec fn lru_index<R>(s: Seq<CachedView<R>>) -> int {
    choose|i: int| #[trigger] is_lru(s, i)
}

/// The cache's invariant: one entry per key, distinct access stamps none
/// above the counter, and no more entries than the capacity.
pub open spec fn cache_wf<R>(v: InferenceCacheView<R>) -> bool {
    &&& forall|i: int, j: int|
        0 <= i < j < v.entries.len() ==> !(#[trigger] v.entries[i].rule == #[trigger] v.entries[j].rule
            && v.entries[i].generation == v.entries[j].generation)
    &&& forall|i: int, j: int|
        0 <= i < j < v.entries.len() ==> #[trigger] v.entries[i].last_accessed != #[trigger] v.entries[j].last_accessed
    &&& forall|i: int| 0 <= i < v.entries.len() ==> (#[trigger] v.entries[i]).last_accessed <= v.counter
    &&& v.entries.len() <= v.max_entries
}

/// The entry for `rule` at `generation` is unique.
proof fn lemma_entry_unique<R>(v: InferenceCacheView<R>, rule: Seq<char>, generation: u64, i: int)
    requires
        cache_wf(v),
        entry_at(v.entries, rule, generation, i),
    ensures
        entry_index(v.entries, rule, generation) == i,
{
    let k = entry_index(v.entries, rule, generation);
    assert(entry_at(v.entries, rule, generation, k));
    if k < i {
        assert(v.entries[k].rule == v.entries[i].rule);
    } else if i < k {
        assert(v.entries[i].rule == v.entries[k].rule);
    }
}

/// The least recently used entry is unique.
proof fn lemma_lru_unique<R>(v: InferenceCacheView<R>, i: int)
    requires
        cache_wf(v),
        0 <= i < v.entries.len(),
        forall|j: int| 0 <= j < v.entries.len() ==> v.entries[i].last_accessed <= #[trigger] v.entries[j].last_accessed,
    ensures
        lru_index(v.entries) == i,
{
    assert(is_lru(v.entries, i));
    let k = lru_index(v.entries);
    assert(is_lru(v.entries, k));
    assert(v.entries[k].last_accessed <= v.entries[i].last_accessed);
    assert(v.entries[i].last_accessed <= v.entries[k].last_accessed);
    if k < i {
        assert(v.entries[k].last_accessed != v.entries[i].last_accessed);
    } else if i < k {
        assert(v.entries[i].last_accessed != v.entries[k].last_accessed);
    }
}

impl<R> InferenceCache<R> {
    /// The cache's invariant (see [`cache_wf`]).
    pub open spec fn wf(&self) -> bool {
        cache_wf(self@)
    }

    /// An empty cache holding at most `max_entries` results; capacity 0
    /// disables caching.
    pub fn new(max_entries: usize) -> (r: InferenceCache<R>)
        ensures
            r.wf(),
            r@.entries.len() == 0,
            r@.max_entries == max_entries,
            r@.counter == 0,
    {
        let r = InferenceCache { entries: Vec::new(), max_entries, access_counter: 0 };
        assert(r@.entries =~= Seq::<CachedView<R>>::empty());
        r
    }

    /// The index of the entry for `rule_name` at `generation`, if any.
    fn find(&self, rule_name: &String, generation: u64) -> (r: Option<usize>)
        ensures
            r matches Some(i) ==> entry_at(self@.entries, rule_name@, generation, i as int),
            r is None ==> !has_entry(self@.entries, rule_name@, generation),
    {
        let mut i: usize = 0;
        while i < self.entries.len()
            invariant
                i <= self.entries@.len(),
                forall|k: int| 0 <= k < i ==> !entry_at(self@.entries, rule_name@, generation, k),
            decreases self.entries@.len() - i,
        {
            proof {
                assert(self@.entries[i as int] == cached_view(self.entries@[i as int]));
            }
            if self.entries[i].generation == generation && self.entries[i].rule_name == *rule_name {
                return Some(i);
            }
            i = i + 1;
        }
        None
    }

    /// The cached result of rule `rule_name` at `generation`, cloned, or
    /// `None` on a miss. A hit makes the entry the most recently used.
    pub fn get(&mut self, rule_name: &str, generation: u64) -> (r: Option<R>) where R: Clone
        requires
            old(self).wf(),
            old(self)@.counter < u64::MAX,
        ensures
            final(self).wf(),
            old(self)@.max_entries == 0 || !has_entry(old(self)@.entries, rule_name@, generation) ==> r is None
                && final(self)@ == old(self)@,
            old(self)@.max_entries > 0 && has_entry(old(self)@.entries, rule_name@, generation) ==> ({
                let i = entry_index(old(self)@.entries, rule_name@, generation);
                let e = old(self)@.entries[i];
                &&& r matches Some(x) && vstd::pervasive::cloned(e.result, x)
                &&& final(self)@ == (InferenceCacheView {
                    entries: old(self)@.entries.update(i, CachedView { last_accessed: (old(self)@.counter + 1) as u64, ..e }),
                    counter: (old(self)@.counter + 1) as u64,
                    ..old(self)@
                })
            }),
    {
        if self.max_entries == 0 {
            return None;
        }
        let name = string_of(rule_name);
        match self.find(&name, generation) {
            Some(i) => {
                let ghost v0 = self@;
                proof {
                    lemma_entry_unique(v0, rule_name@, generation, i as int);
                }
                self.access_counter = self.access_counter + 1;
                self.entries[i].last_accessed = self.access_counter;
                let x = self.entries[i].result.clone();
                proof {
                    let e = v0.entries[i as int];
                    assert(self@.entries =~= v0.entries.update(
                        i as int,
                        CachedView { last_accessed: self.access_counter, ..e },
                    ));
                    assert forall|a: int, b: int| 0 <= a < b < self@.entries.len() implies #[trigger] self@.entries[a].last_accessed
                        != #[trigger] self@.entries[b].last_accessed by {
                        if a != i && b != i {
                            assert(v0.entries[a].last_accessed != v0.entries[b].last_accessed);
                        }
                    }
                    assert forall|a: int, b: int| 0 <= a < b < self@.entries.len() implies !(#[trigger] self@.entries[a].rule
                        == #[trigger] self@.entries[b].rule && self@.entries[a].generation == self@.entries[b].generation) by {
                        assert(v0.entries[a].rule == self@.entries[a].rule && v0.entries[b].rule == self@.entries[b].rule);
                    }
                    assert(self.entries@[i as int].result == e.result);
                }
                Some(x)
            },
            None => None,
        }
    }

    /// Caches `result` for rule `rule_name` at `generation` as the most
    /// recently used entry, replacing an entry with the same key; when the
    /// key is new and the cache is full, the least recently used entry is
    /// dropped first. Does nothing at capacity 0.
    pub fn insert(&mut self, rule_name: String, generation: u64, result: R)
        requires
            old(self).wf(),
            old(self)@.counter < u64::MAX,
        ensures
            final(self).wf(),
            old(self)@.max_entries == 0 ==> final(self)@ == old(self)@,
            old(self)@.max_entries > 0 ==> ({
                let c = (old(self)@.counter + 1) as u64;
                let e = CachedView { rule: rule_name@, generation, result, last_accessed: c };
                let s = old(self)@.entries;
                &&& final(self)@.counter == c
                &&& final(self)@.max_entries == old(self)@.max_entries
                &&& has_entry(s, rule_name@, generation) ==> final(self)@.entries == s.update(
                    entry_index(s, rule_name@, generation),
                    e,
                )
                &&& !has_entry(s, rule_name@, generation) ==> final(self)@.entries == (if s.len()
                    >= old(self)@.max_entries {
                    s.remove(lru_index(s))
                } else {
                    s
                }).push(e)
            }),
    {
        if self.max_entries == 0 {
            return;
        }
        let ghost v0 = self@;
        self.access_counter = self.access_counter + 1;
        let c = self.access_counter;
        match self.find(&rule_name, generation) {
            Some(i) => {
                proof {
                    lemma_entry_unique(v0, rule_name@, generation, i as int);
                }
                let ghost name = rule_name@;
                self.entries.set(i, CacheEntry { rule_name, generation, result, last_accessed: c });
                proof {
                    let e = CachedView { rule: name, generation, result, last_accessed: c };
                    assert(self@.entries =~= v0.entries.update(i as int, e));
                    assert forall|a: int, b: int| 0 <= a < b < self@.entries.len() implies #[trigger] self@.entries[a].last_accessed
                        != #[trigger] self@.entries[b].last_accessed by {
                        if a != i && b != i {
                            assert(v0.entries[a].last_accessed != v0.entries[b].last_accessed);
                        }
                    }
                    assert forall|a: int, b: int| 0 <= a < b < self@.entries.len() implies !(#[trigger] self@.entries[a].rule
                        == #[trigger] self@.entries[b].rule && self@.entries[a].generation == self@.entries[b].generation) by {
                        assert(v0.entries[a].rule == self@.entries[a].rule && v0.entries[b].rule == self@.entries[b].rule);
                        assert(v0.entries[a].generation == self@.entries[a].generation && v0.entries[b].generation
                            == self@.entries[b].generation);
                    }
                }
            },
            None => {
                if self.entries.len() >= self.max_entries {
                    proof {
                        assert forall|j: int| 0 <= j < self@.entries.len() implies (#[trigger] self@.entries[j]).last_accessed
                            < u64::MAX by {
                            assert(self@.entries[j] == v0.entries[j]);
                        }
                    }
                    self.evict_lru();
                }
                let ghost v1 = self@;
                proof {
                    if v0.entries.len() >= v0.max_entries {
                        assert(v1.entries == v0.entries.remove(lru_index(v0.entries)));
                    } else {
                        assert(v1.entries == v0.entries);
                    }
                }
                let ghost name = rule_name@;
                self.entries.push(CacheEntry { rule_name, generation, result, last_accessed: c });
                proof {
                    let e = CachedView { rule: name, generation, result, last_accessed: c };
                    assert(self@.entries =~= v1.entries.push(e));
                    assert forall|a: int, b: int| 0 <= a < b < self@.entries.len() implies #[trigger] self@.entries[a].last_accessed
                        != #[trigger] self@.entries[b].last_accessed by {
                        if b < v1.entries.len() {
                            assert(v1.entries[a].last_accessed != v1.entries[b].last_accessed);
                        } else {
                            if v0.entries.len() >= v0.max_entries {
                                let idx = lru_index(v0.entries);
                                assert(v1.entries[a] == v0.entries[if a < idx { a } else { a + 1 }]);
                            } else {
                                assert(v1.entries[a] == v0.entries[a]);
                            }
                            assert(v1.entries[a].last_accessed <= v0.counter);
                        }
                    }
                    assert forall|a: int, b: int| 0 <= a < b < self@.entries.len() implies !(#[trigger] self@.entries[a].rule
                        == #[trigger] self@.entries[b].rule && self@.entries[a].generation == self@.entries[b].generation) by {
                        if b == v1.entries.len() {
                            assert(self@.entries[a] == v1.entries[a]);
                            assert(!entry_at(v1.entries, name, generation, a));
                        }
                    }
                }
            },
        }
    }

    /// Drops the least recently used entry of a non-empty cache whose
    /// access stamps lie below the maximum.
    fn evict_lru(&mut self)
        requires
            old(self).wf(),
            old(self)@.entries.len() > 0,
            forall|i: int| 0 <= i < old(self)@.entries.len() ==> (#[trigger] old(self)@.entries[i]).last_accessed < u64::MAX,
        ensures
            is_lru(old(self)@.entries, lru_index(old(self)@.entries)),
            final(self)@ == (InferenceCacheView {
                entries: old(self)@.entries.remove(lru_index(old(self)@.entries)),
                ..old(self)@
            }),
            forall|rule: Seq<char>, generation: u64|
                !has_entry(old(self)@.entries, rule, generation) ==> !has_entry(final(self)@.entries, rule, generation),
            cache_wf(final(self)@),
    {
        let ghost v0 = self@;
        let mut lru: usize = 0;
        let mut lru_access: u64 = u64::MAX;
        let mut found = false;
        let mut i: usize = 0;
        while i < self.entries.len()
            invariant
                self@ == v0,
                cache_wf(v0),
                forall|j: int| 0 <= j < v0.entries.len() ==> (#[trigger] v0.entries[j]).last_accessed < u64::MAX,
                i <= v0.entries.len(),
                found <==> i > 0,
                found ==> lru < i && v0.entries[lru as int].last_accessed == lru_access,
                !found ==> lru_access == u64::MAX,
                forall|j: int| 0 <= j < i ==> lru_access <= #[trigger] v0.entries[j].last_accessed,
            decreases v0.entries.len() - i,
        {
            proof {
                assert(v0.entries[i as int] == cached_view(self.entries@[i as int]));
            }
            if self.entries[i].last_accessed < lru_access {
                lru_access = self.entries[i].last_accessed;
                lru = i;
                found = true;
            } else {
                proof {
                    assert(found) by {
                        if !found {
                            assert(v0.entries[i as int].last_accessed < u64::MAX);
                        }
                    }
                }
            }
            i = i + 1;
        }
        proof {
            lemma_lru_unique(v0, lru as int);
        }
        self.entries.remove(lru);
        proof {
            let s = v0.entries.remove(lru as int);
            assert(self@.entries =~= s);
            assert forall|rule: Seq<char>, generation: u64| !has_entry(v0.entries, rule, generation) implies !has_entry(
                self@.entries,
                rule,
                generation,
            ) by {
                if has_entry(self@.entries, rule, generation) {
                    let k = choose|k: int| entry_at(self@.entries, rule, generation, k);
                    if k < lru {
                        assert(entry_at(v0.entries, rule, generation, k));
                    } else {
                        assert(entry_at(v0.entries, rule, generation, k + 1));
                    }
                }
            }
            assert forall|a: int, b: int| 0 <= a < b < s.len() implies #[trigger] s[a].last_accessed
                != #[trigger] s[b].last_accessed by {
                let a0 = if a < lru { a } else { a + 1 };
                let b0 = if b < lru { b } else { b + 1 };
                assert(s[a] == v0.entries[a0] && s[b] == v0.entries[b0]);
            }
            assert forall|a: int, b: int| 0 <= a < b < s.len() implies !(#[trigger] s[a].rule == #[trigger] s[b].rule
                && s[a].generation == s[b].generation) by {
                let a0 = if a < lru { a } else { a + 1 };
                let b0 = if b < lru { b } else { b + 1 };
                assert(s[a] == v0.entries[a0] && s[b] == v0.entries[b0]);
            }
        }
    }

    /// Drops every entry.
    pub fn clear(&mut self)
        requires
            old(self).wf(),
        ensures
            final(self).wf(),
            final(self)@ == (InferenceCacheView { entries: Seq::empty(), ..old(self)@ }),
    {
        self.entries = Vec::new();
        assert(self@.entries =~= Seq::<CachedView<R>>::empty());
    }
}

} // verus!

verus! {

// ---------------------------------------------------------------------------
// Engine state
// ---------------------------------------------------------------------------

/// The inference engine's state: rules of type `T` by name in registration
/// order, a cache of results of type `R`, and the provenance registry.
pub struct InferenceEngine<T, R> {
    rules: Vec<(String, T)>,
    cache: InferenceCache<R>,
    provenance: ProvenanceRegistry,
}

/// The names of the rules, in order.
pub open spec fn rule_name_seq<T>(rules: Seq<(Seq<char>, T)>) -> Seq<Seq<char>> {
    rules.map_values(|p: (Seq<char>, T)| p.0)
}

/// Rule `i` is named `name`.
pub open spec fn rule_at<T>(rules: Seq<(Seq<char>, T)>, name: Seq<char>, i: int) -> bool {
    0 <= i < rules.len() && rules[i].0 == name
}

/// Some rule is named `name`.
pub open spec fn has_rule<T>(rules: Seq<(Seq<char>, T)>, name: Seq<char>) -> bool {
    exists|i: int| rule_at(rules, name, i)
}

/// The index of the rule named `name`.
pub open spec fn rule_index<T>(rules: Seq<(Seq<char>, T)>, name: Seq<char>) -> int {
    choose|i: int| rule_at(rules, name, i)
}

/// No two rules share a name.
pub open spec fn names_unique<T>(rules: Seq<(Seq<char>, T)>) -> bool {
    forall|i: int, j: int| 0 <= i < j < rules.len() ==> #[trigger] rules[i].0 != #[trigger] rules[j].0
}

proof fn lemma_rule_unique<T>(rules: Seq<(Seq<char>, T)>, name: Seq<char>, i: int)
    requires
        names_unique(rules),
        rule_at(rules, name, i),
    ensures
        rule_index(rules, name) == i,
{
    let k = rule_index(rules, name);
    assert(rule_at(rules, name, k));
    if k < i {
        assert(rules[k].0 != rules[i].0);
    } else if i < k {
        assert(rules[i].0 != rules[k].0);
    }
}

impl<T, R> InferenceEngine<T, R> {
    /// The registered rules by name, in registration order.
    pub closed spec fn rules(&self) -> Seq<(Seq<char>, T)> {
        self.rules@.map_values(|p: (String, T)| (p.0@, p.1))
    }

    /// The result cache.
    pub closed spec fn cache(&self) -> InferenceCacheView<R> {
        self.cache@
    }

    /// The provenance registry.
    pub closed spec fn provenance_registry(&self) -> ProvenanceRegistry {
        self.provenance
    }

    /// The engine's invariant: rule names are unique and the cache is well
    /// formed.
    pub open spec fn wf(&self) -> bool {
        names_unique(self.rules()) && cache_wf(self.cache())
    }

    /// An engine with no rules, an empty cache of capacity `cache_size` and
    /// an empty provenance registry.
    pub fn new(cache_size: usize) -> (r: InferenceEngine<T, R>)
        ensures
            r.wf(),
            r.rules() == Seq::<(Seq<char>, T)>::empty(),
            r.cache() == (InferenceCacheView::<R> { entries: Seq::empty(), max_entries: cache_size as nat, counter: 0 }),
            r.provenance_registry().wf(),
            r.provenance_registry()@.records == Map::<crate::inference::InferredEntity, (Seq<char>, u64)>::empty(),
            r.provenance_registry()@.rules == Map::<Seq<char>, Seq<crate::inference::InferredEntity>>::empty(),
    {
        let cache = InferenceCache::new(cache_size);
        let r = InferenceEngine { rules: Vec::new(), cache, provenance: ProvenanceRegistry::new() };
        assert(r.rules() =~= Seq::<(Seq<char>, T)>::empty());
        assert(r.cache().entries =~= Seq::<CachedView<R>>::empty());
        r
    }

    fn find_rule(&self, name: &String) -> (r: Option<usize>)
        ensures
            r matches Some(i) ==> rule_at(self.rules(), name@, i as int),
            r is None ==> !has_rule(self.rules(), name@),
    {
        let mut i: usize = 0;
        while i < self.rules.len()
            invariant
                i <= self.rules@.len(),
                forall|k: int| 0 <= k < i ==> !rule_at(self.rules(), name@, k),
            decreases self.rules@.len() - i,
        {
            if self.rules[i].0 == *name {
                return Some(i);
            }
            i = i + 1;
        }
        None
    }

    /// Registers `rule` under `name`, replacing the rule of that name in
    /// its place in the registration order, or else appending it.
    pub fn register_rule(&mut self, name: String, rule: T)
        requires
            old(self).wf(),
        ensures
            final(self).wf(),
            final(self).rules() == if has_rule(old(self).rules(), name@) {
                old(self).rules().update(rule_index(old(self).rules(), name@), (name@, rule))
            } else {
                old(self).rules().push((name@, rule))
            },
            final(self).cache() == old(self).cache(),
            final(self).provenance_registry() == old(self).provenance_registry(),
    {
        let ghost r0 = self.rules();
        let ghost n = name@;
        match self.find_rule(&name) {
            Some(i) => {
                proof {
                    lemma_rule_unique(r0, n, i as int);
                }
                self.rules.set(i, (name, rule));
                proof {
                    assert(self.rules() =~= r0.update(i as int, (n, rule)));
                    assert forall|a: int, b: int| 0 <= a < b < self.rules().len() implies #[trigger] self.rules()[a].0
                        != #[trigger] self.rules()[b].0 by {
                        assert(self.rules()[a].0 == r0[a].0 && self.rules()[b].0 == r0[b].0);
                    }
                }
            },
            None => {
                self.rules.push((name, rule));
                proof {
                    assert(self.rules() =~= r0.push((n, rule)));
                    assert forall|a: int, b: int| 0 <= a < b < self.rules().len() implies #[trigger] self.rules()[a].0
                        != #[trigger] self.rules()[b].0 by {
                        if b == r0.len() {
                            assert(!rule_at(r0, n, a));
                        }
                    }
                }
            },
        }
    }

    /// Removes the rule named `name`; returns whether there was one. The
    /// other rules keep their order.
    pub fn unregister_rule(&mut self, name: &str) -> (r: bool)
        requires
            old(self).wf(),
        ensures
            final(self).wf(),
            r == has_rule(old(self).rules(), name@),
            final(self).rules() == if r {
                old(self).rules().remove(rule_index(old(self).rules(), name@))
            } else {
                old(self).rules()
            },
            final(self).cache() == old(self).cache(),
            final(self).provenance_registry() == old(self).provenance_registry(),
    {
        let ghost r0 = self.rules();
        let n = string_of(name);
        match self.find_rule(&n) {
            Some(i) => {
                proof {
                    lemma_rule_unique(r0, name@, i as int);
                }
                let _removed = self.rules.remove(i);
                proof {
                    assert(self.rules() =~= r0.remove(i as int));
                    assert forall|a: int, b: int| 0 <= a < b < self.rules().len() implies #[trigger] self.rules()[a].0
                        != #[trigger] self.rules()[b].0 by {
                        let a0 = if a < i { a } else { a + 1 };
                        let b0 = if b < i { b } else { b + 1 };
                        assert(self.rules()[a] == r0[a0] && self.rules()[b] == r0[b0]);
                    }
                }
                true
            },
            None => false,
        }
    }

    /// The names of the registered rules, in registration order.
    pub fn rule_names(&self) -> (r: Vec<String>)
        ensures
            r@.map_values(|s: String| s@) == rule_name_seq(self.rules()),
    {
        let mut out: Vec<String> = Vec::new();
        let mut i: usize = 0;
        while i < self.rules.len()
            invariant
                i <= self.rules@.len(),
                out@.map_values(|s: String| s@) == rule_name_seq(self.rules()).take(i as int),
            decreases self.rules@.len() - i,
        {
            let name = self.rules[i].0.clone();
            let ghost prev = out@;
            out.push(name);
            proof {
                assert(out@.map_values(|s: String| s@) =~= prev.map_values(|s: String| s@).push(name@));
                assert(rule_name_seq(self.rules()).take(i + 1) =~= rule_name_seq(self.rules()).take(i as int).push(
                    self.rules()[i as int].0,
                ));
            }
            i = i + 1;
        }
        assert(rule_name_seq(self.rules()).take(self.rules@.len() as int) =~= rule_name_seq(self.rules()));
        out
    }

    /// The rule named `name`, if one is registered.
    pub fn get_rule(&self, name: &str) -> (r: Option<&T>)
        requires
            self.wf(),
        ensures
            r is Some <==> has_rule(self.rules(), name@),
            r matches Some(t) ==> *t == self.rules()[rule_index(self.rules(), name@)].1,
    {
        let n = string_of(name);
        match self.find_rule(&n) {
            Some(i) => {
                proof {
                    lemma_rule_unique(self.rules(), name@, i as int);
                }
                Some(&self.rules[i].1)
            },
            None => None,
        }
    }

    /// The cached result of rule `rule_name` at `generation` (see
    /// [`InferenceCache::get`]).
    pub fn cache_get(&mut self, rule_name: &str, generation: u64) -> (r: Option<R>) where R: Clone
        requires
            old(self).wf(),
            old(self).cache().counter < u64::MAX,
        ensures
            final(self).wf(),
            final(self).rules() == old(self).rules(),
            final(self).provenance_registry() == old(self).provenance_registry(),
            old(self).cache().max_entries == 0 || !has_entry(old(self).cache().entries, rule_name@, generation) ==> r
                is None && final(self).cache() == old(self).cache(),
            old(self).cache().max_entries > 0 && has_entry(old(self).cache().entries, rule_name@, generation) ==> ({
                let i = entry_index(old(self).cache().entries, rule_name@, generation);
                let e = old(self).cache().entries[i];
                &&& r matches Some(x) && vstd::pervasive::cloned(e.result, x)
                &&& final(self).cache() == (InferenceCacheView {
                    entries: old(self).cache().entries.update(
                        i,
                        CachedView { last_accessed: (old(self).cache().counter + 1) as u64, ..e },
                    ),
                    counter: (old(self).cache().counter + 1) as u64,
                    ..old(self).cache()
                })
            }),
    {
        self.cache.get(rule_name, generation)
    }

    /// Caches `result` for rule `rule_name` at `generation` (see
    /// [`InferenceCache::insert`]).
    pub fn cache_insert(&mut self, rule_name: String, generation: u64, result: R)
        requires
            old(self).wf(),
            old(self).cache().counter < u64::MAX,
        ensures
            final(self).wf(),
            final(self).rules() == old(self).rules(),
            final(self).provenance_registry() == old(self).provenance_registry(),
            old(self).cache().max_entries == 0 ==> final(self).cache() == old(self).cache(),
            old(self).cache().max_entries > 0 ==> ({
                let c = (old(self).cache().counter + 1) as u64;
                let e = CachedView { rule: rule_name@, generation, result, last_accessed: c };
                let s = old(self).cache().entries;
                &&& final(self).cache().counter == c
                &&& final(self).cache().max_entries == old(self).cache().max_entries
                &&& has_entry(s, rule_name@, generation) ==> final(self).cache().entries == s.update(
                    entry_index(s, rule_name@, generation),
                    e,
                )
                &&& !has_entry(s, rule_name@, generation) ==> final(self).cache().entries == (if s.len()
                    >= old(self).cache().max_entries {
                    s.remove(lru_index(s))
                } else {
                    s
                }).push(e)
            }),
    {
        self.cache.insert(rule_name, generation, result);
    }

    /// The provenance registry.
    pub fn provenance(&self) -> (r: &ProvenanceRegistry)
        ensures
            *r == self.provenance_registry(),
    {
        &self.provenance
    }

    /// Mutable access to the provenance registry.
    pub fn provenance_mut(&mut self) -> (r: &mut ProvenanceRegistry)
        ensures
            *r == old(self).provenance_registry(),
            final(self).provenance_registry() == *final(r),
            final(self).rules() == old(self).rules(),
            final(self).cache() == old(self).cache(),
    {
        &mut self.provenance
    }
}

} // verus!
