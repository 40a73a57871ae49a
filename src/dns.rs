use vstd::prelude::*;

use crate::addr::IpAddress;

verus! {

/// Seconds for which an entry must still be valid for its refresh to wait,
/// and the least time between two refresh cycles.
pub const MIN_TIME_BEFORE_REFRESH: u64 = 30;

/// What a fresh lookup of a name returned: its addresses and the second, on
/// the service's clock, until which they are valid.
#[derive(Clone, Debug)]
pub struct LookupResult {
    pub addresses: Vec<IpAddress>,
    pub valid_until: u64,
}

/// A cached lookup of one name, with the watchers registered on it.
#[derive(Clone, Debug)]
pub struct DnsCacheEntry {
    pub name: String,
    pub addresses: Vec<IpAddress>,
    pub valid_until: u64,
    pub watchers: Vec<usize>,
}

/// The abstract value of a cache entry.
pub ghost struct EntryModel {
    pub name: Seq<char>,
    pub addresses: Seq<IpAddress>,
    pub valid_until: u64,
    pub watchers: Set<usize>,
}

pub ghost struct LookupModel {
    pub addresses: Seq<IpAddress>,
    pub valid_until: u64,
}

impl View for LookupResult {
    type V = LookupModel;

    open spec fn view(&self) -> LookupModel {
        LookupModel { addresses: self.addresses@, valid_until: self.valid_until }
    }
}

impl View for DnsCacheEntry {
    type V = EntryModel;

    open spec fn view(&self) -> EntryModel {
        EntryModel {
            name: self.name@,
            addresses: self.addresses@,
            valid_until: self.valid_until,
            watchers: self.watchers@.to_set(),
        }
    }
}

/// The resolution cache and the registry of watchers.
///
/// Watchers are numbered in the order they were created; an entry holds
/// the numbers of the watchers registered on it. Each entry is its own
/// place in the refresh schedule, by its validity: a refresh reschedules
/// the entry itself, so no stale schedule of a name can remain.
#[derive(Debug)]
pub struct DnsService {
    entries: Vec<DnsCacheEntry>,
    /// For each watcher: raised when a name it watches changed, lowered
    /// when the watcher observes it.
    pending: Vec<bool>,
    /// For each watcher: the names whose addresses changed while it watched them.
    updated: Vec<Vec<String>>,
}

/// A watcher: the number it was given by its service, and the names it
/// watches.
#[derive(Debug)]
pub struct DnsWatcher {
    id: usize,
    watched: Vec<String>,
}

/// The abstract value of the service: the cache, keyed by name, and for each
/// watcher whether a notification is pending and which names changed.
pub ghost struct DnsModel {
    pub cache: Map<Seq<char>, EntryModel>,
    pub pending: Seq<bool>,
    pub updated: Seq<Set<Seq<char>>>,
}

/// The abstract value of a watcher: its number and the names it watches.
pub ghost struct WatcherModel {
    pub id: usize,
    pub watched: Set<Seq<char>>,
}

impl View for DnsWatcher {
    type V = WatcherModel;

    closed spec fn view(&self) -> WatcherModel {
        WatcherModel { id: self.id, watched: name_set(self.watched@) }
    }
}

impl DnsModel {
    /// Every watcher has a pending flag and a set of changed names, and
    /// every watcher registered on an entry is one of them.
    pub open spec fn consistent(self) -> bool {
        &&& self.updated.len() == self.pending.len()
        &&& forall|n: Seq<char>, w: usize|
            self.cache.contains_key(n) && #[trigger] self.cache[n].watchers.contains(w) ==> w
                < self.pending.len()
    }

    /// The entry that a fresh lookup of `name` creates: no watcher yet.
    pub open spec fn new_entry(name: Seq<char>, fetched: LookupModel) -> EntryModel {
        EntryModel {
            name,
            addresses: fetched.addresses,
            valid_until: fetched.valid_until,
            watchers: Set::empty(),
        }
    }

    /// The service once a fresh lookup of `name` has been stored: an entry
    /// already there is kept as it is.
    pub open spec fn after_lookup(self, name: Seq<char>, fetched: LookupModel) -> DnsModel {
        if self.cache.contains_key(name) {
            self
        } else {
            DnsModel { cache: self.cache.insert(name, DnsModel::new_entry(name, fetched)), ..self }
        }
    }

    /// The service once watcher `id` is registered on the entry of `name`.
    pub open spec fn watch(self, name: Seq<char>, id: usize) -> DnsModel {
        if self.cache.contains_key(name) {
            let e = self.cache[name];
            DnsModel {
                cache: self.cache.insert(name, EntryModel { watchers: e.watchers.insert(id), ..e }),
                ..self
            }
        } else {
            self
        }
    }

    /// The service once watcher `id` is taken off the entry of `name`.
    pub open spec fn unwatch(self, name: Seq<char>, id: usize) -> DnsModel {
        if self.cache.contains_key(name) {
            let e = self.cache[name];
            DnsModel {
                cache: self.cache.insert(name, EntryModel { watchers: e.watchers.remove(id), ..e }),
                ..self
            }
        } else {
            self
        }
    }

    /// The service once watcher `id` is taken off the entries of all `names`.
    pub open spec fn unwatch_all(self, names: Set<Seq<char>>, id: usize) -> DnsModel {
        DnsModel {
            cache: Map::new(
                |n: Seq<char>| self.cache.contains_key(n),
                |n: Seq<char>|
                    if names.contains(n) {
                        EntryModel { watchers: self.cache[n].watchers.remove(id), ..self.cache[n] }
                    } else {
                        self.cache[n]
                    },
            ),
            ..self
        }
    }
}

impl DnsModel {
    /// Whether a fresh lookup that returned `fetched` changes the set of
    /// addresses of `name`.
    pub open spec fn changes(self, name: Seq<char>, fetched: LookupModel) -> bool {
        self.cache.contains_key(name) && fetched.addresses.to_set()
            != self.cache[name].addresses.to_set()
    }

    /// The watchers that one refresh of `name` notifies: those registered on
    /// it when its set of addresses changed, none otherwise.
    pub open spec fn step_notifies(self, name: Seq<char>, outcome: Option<LookupModel>) -> Set<
        usize,
    > {
        match outcome {
            Some(f) => if self.changes(name, f) {
                self.cache[name].watchers
            } else {
                Set::empty()
            },
            None => Set::empty(),
        }
    }

    /// The service once `name` was refreshed with the outcome of a fresh
    /// lookup. A failed lookup leaves all as it was. A successful one
    /// replaces the addresses and the validity of the entry and keeps its
    /// watchers; if the set of addresses changed, each watcher of the entry
    /// gets a pending notification and the name among its updated names.
    pub open spec fn refresh_step(self, name: Seq<char>, outcome: Option<LookupModel>) -> DnsModel {
        match outcome {
            Some(f) => if self.cache.contains_key(name) {
                let e = self.cache[name];
                let ws = self.step_notifies(name, outcome);
                DnsModel {
                    cache: self.cache.insert(
                        name,
                        EntryModel { addresses: f.addresses, valid_until: f.valid_until, ..e },
                    ),
                    pending: Seq::new(
                        self.pending.len(),
                        |w: int| self.pending[w] || ws.contains(w as usize),
                    ),
                    updated: Seq::new(
                        self.updated.len(),
                        |w: int|
                            if ws.contains(w as usize) {
                                self.updated[w].insert(name)
                            } else {
                                self.updated[w]
                            },
                    ),
                }
            } else {
                self
            },
            None => self,
        }
    }

    /// The service after a refresh cycle over `names`, each refreshed in turn
    /// with the outcome at the same position.
    pub open spec fn refresh_cycle(self, names: Seq<Seq<char>>, outcomes: Seq<Option<LookupModel>>) -> DnsModel
        decreases names.len(),
    {
        if names.len() == 0 {
            self
        } else {
            self.refresh_cycle(names.drop_last(), outcomes.drop_last()).refresh_step(
                names.last(),
                outcomes.last(),
            )
        }
    }

    /// The watchers that a refresh cycle over `names` notifies.
    pub open spec fn cycle_notifies(self, names: Seq<Seq<char>>, outcomes: Seq<Option<LookupModel>>) -> Set<usize>
        decreases names.len(),
    {
        if names.len() == 0 {
            Set::empty()
        } else {
            self.cycle_notifies(names.drop_last(), outcomes.drop_last()).union(
                self.refresh_cycle(names.drop_last(), outcomes.drop_last()).step_notifies(
                    names.last(),
                    outcomes.last(),
                ),
            )
        }
    }
}

/// Whether an entry valid until `valid_until` is due for a refresh at `now`:
/// its remaining validity is at most the refresh floor.
pub open spec fn is_due(valid_until: u64, now: u64) -> bool {
    valid_until <= now + MIN_TIME_BEFORE_REFRESH
}

pub open spec fn names_view(v: Seq<String>) -> Seq<Seq<char>> {
    v.map_values(|s: String| s@)
}

pub open spec fn outcome_view(o: Option<LookupResult>) -> Option<LookupModel> {
    match o {
        Some(l) => Some(l@),
        None => None,
    }
}

pub open spec fn outcomes_view(v: Seq<Option<LookupResult>>) -> Seq<Option<LookupModel>> {
    v.map_values(|o: Option<LookupResult>| outcome_view(o))
}

pub open spec fn names_unique(entries: Seq<DnsCacheEntry>) -> bool {
    forall|i: int, j: int|
        0 <= i < entries.len() && 0 <= j < entries.len() && i != j ==> entries[i].name@
            != entries[j].name@
}

pub open spec fn cache_of(entries: Seq<DnsCacheEntry>) -> Map<Seq<char>, EntryModel> {
    Map::new(
        |n: Seq<char>| exists|i: int| 0 <= i < entries.len() && entries[i].name@ == n,
        |n: Seq<char>| entries[choose|i: int| 0 <= i < entries.len() && entries[i].name@ == n]@,
    )
}

/// The names held by a vector of strings.
pub open spec fn name_set(v: Seq<String>) -> Set<Seq<char>> {
    Set::new(|n: Seq<char>| exists|i: int| 0 <= i < v.len() && v[i]@ == n)
}

impl View for DnsService {
    type V = DnsModel;

    closed spec fn view(&self) -> DnsModel {
        DnsModel {
            cache: cache_of(self.entries@),
            pending: self.pending@,
            updated: self.updated@.map_values(|u: Vec<String>| name_set(u@)),
        }
    }
}

proof fn lemma_cache_at(entries: Seq<DnsCacheEntry>, i: int)
    requires
        names_unique(entries),
        0 <= i < entries.len(),
    ensures
        cache_of(entries).contains_key(entries[i].name@),
        cache_of(entries)[entries[i].name@] == entries[i]@,
{
    let n = entries[i].name@;
    assert(exists|k: int| 0 <= k < entries.len() && entries[k].name@ == n);
    let j = choose|k: int| 0 <= k < entries.len() && entries[k].name@ == n;
    assert(j == i);
}

proof fn lemma_cache_replace(old: Seq<DnsCacheEntry>, new: Seq<DnsCacheEntry>, i: int)
    requires
        names_unique(old),
        0 <= i < old.len(),
        new.len() == old.len(),
        new[i].name@ == old[i].name@,
        forall|j: int| 0 <= j < old.len() && j != i ==> new[j] == old[j],
    ensures
        names_unique(new),
        cache_of(new) == cache_of(old).insert(old[i].name@, new[i]@),
{
    assert(names_unique(new)) by {
        assert forall|a: int, b: int|
            0 <= a < new.len() && 0 <= b < new.len() && a != b implies new[a].name@
            != new[b].name@ by {
            assert(old[a].name@ != old[b].name@);
        }
    }
    let m = cache_of(old).insert(old[i].name@, new[i]@);
    assert forall|n: Seq<char>| cache_of(new).contains_key(n) == m.contains_key(n) by {
        if cache_of(new).contains_key(n) {
            let k = choose|k: int| 0 <= k < new.len() && new[k].name@ == n;
            if k != i {
                assert(old[k].name@ == n);
            }
        }
        if m.contains_key(n) && n != old[i].name@ {
            let k = choose|k: int| 0 <= k < old.len() && old[k].name@ == n;
            assert(new[k].name@ == n);
        }
        if n == old[i].name@ {
            assert(new[i].name@ == n);
        }
    }
    assert forall|n: Seq<char>| #[trigger] cache_of(new).contains_key(n) implies cache_of(new)[n]
        == m[n] by {
        let k = choose|k: int| 0 <= k < new.len() && new[k].name@ == n;
        lemma_cache_at(new, k);
        if k != i {
            lemma_cache_at(old, k);
        }
    }
    assert(cache_of(new) =~= m);
}

proof fn lemma_cache_push(old: Seq<DnsCacheEntry>, e: DnsCacheEntry)
    requires
        names_unique(old),
        !cache_of(old).contains_key(e.name@),
    ensures
        names_unique(old.push(e)),
        cache_of(old.push(e)) == cache_of(old).insert(e.name@, e@),
{
    let new = old.push(e);
    assert(names_unique(new)) by {
        assert forall|a: int, b: int|
            0 <= a < new.len() && 0 <= b < new.len() && a != b implies new[a].name@
            != new[b].name@ by {
            if a < old.len() && b < old.len() {
                assert(old[a].name@ != old[b].name@);
            } else if a < old.len() {
                assert(old[a].name@ == new[a].name@);
            } else {
                assert(old[b].name@ == new[b].name@);
            }
        }
    }
    let m = cache_of(old).insert(e.name@, e@);
    assert forall|n: Seq<char>| cache_of(new).contains_key(n) == m.contains_key(n) by {
        if cache_of(new).contains_key(n) {
            let k = choose|k: int| 0 <= k < new.len() && new[k].name@ == n;
            if k < old.len() {
                assert(old[k].name@ == n);
            }
        }
        if m.contains_key(n) && n != e.name@ {
            let k = choose|k: int| 0 <= k < old.len() && old[k].name@ == n;
            assert(new[k].name@ == n);
        }
        if n == e.name@ {
            assert(new[old.len() as int].name@ == n);
        }
    }
    assert forall|n: Seq<char>| #[trigger] cache_of(new).contains_key(n) implies cache_of(new)[n]
        == m[n] by {
        let k = choose|k: int| 0 <= k < new.len() && new[k].name@ == n;
        lemma_cache_at(new, k);
        if k < old.len() {
            lemma_cache_at(old, k);
        }
    }
    assert(cache_of(new) =~= m);
}

fn copy_addresses(v: &Vec<IpAddress>) -> (r: Vec<IpAddress>)
    ensures
        r@ == v@,
{
    let r = v.clone();
    assert(r@ =~= v@);
    r
}

fn copy_ids(v: &Vec<usize>) -> (r: Vec<usize>)
    ensures
        r@ == v@,
{
    let r = v.clone();
    assert(r@ =~= v@);
    r
}

fn contains_id(v: &Vec<usize>, id: usize) -> (r: bool)
    ensures
        r == v@.contains(id),
{
    let mut k: usize = 0;
    while k < v.len()
        invariant
            0 <= k <= v@.len(),
            forall|j: int| 0 <= j < k ==> v@[j] != id,
        decreases v@.len() - k,
    {
        if v[k] == id {
            return true;
        }
        k += 1;
    }
    false
}

fn without_id(v: &Vec<usize>, id: usize) -> (r: Vec<usize>)
    requires
        v@.no_duplicates(),
    ensures
        r@.no_duplicates(),
        forall|x: usize| r@.contains(x) <==> (v@.contains(x) && x != id),
{
    let mut r: Vec<usize> = Vec::new();
    let mut k: usize = 0;
    while k < v.len()
        invariant
            0 <= k <= v@.len(),
            v@.no_duplicates(),
            r@.no_duplicates(),
            forall|x: usize| r@.contains(x) <==> (x != id && seen(v@, k as int, x)),
        decreases v@.len() - k,
    {
        let x = v[k];
        let ghost start = r@;
        assert forall|y: usize| seen(v@, k + 1, y) <==> (seen(v@, k as int, y) || y == x) by {
            if y == x {
                assert(v@[k as int] == y);
            }
        }
        if x != id {
            assert(!r@.contains(x)) by {
                if r@.contains(x) {
                    let j = choose|j: int| 0 <= j < k && v@[j] == x;
                    assert(v@[j] == v@[k as int]);
                }
            }
            let ghost before = r@;
            r.push(x);
            assert forall|y: usize| r@.contains(y) <==> (before.contains(y) || y == x) by {
                if r@.contains(y) {
                    let j = choose|j: int| 0 <= j < r@.len() && r@[j] == y;
                    if j < before.len() {
                        assert(before[j] == y);
                    }
                }
                if before.contains(y) {
                    let j = choose|j: int| 0 <= j < before.len() && before[j] == y;
                    assert(r@[j] == y);
                }
                if y == x {
                    assert(r@[before.len() as int] == y);
                }
            }
        }
        assert forall|y: usize| r@.contains(y) <==> (y != id && seen(v@, k + 1, y)) by {
            assert(seen(v@, k + 1, y) <==> (seen(v@, k as int, y) || y == x));
            assert(start.contains(y) <==> (y != id && seen(v@, k as int, y)));
            if x != id {
                assert(r@.contains(y) <==> (start.contains(y) || y == x));
            } else {
                assert(r@ == start);
            }
        }
        k += 1;
    }
    assert forall|x: usize| seen(v@, v@.len() as int, x) <==> v@.contains(x) by {
        if v@.contains(x) {
            let j = choose|j: int| 0 <= j < v@.len() && v@[j] == x;
        }
    }
    r
}

spec fn seen_set(v: Seq<usize>, k: int) -> Set<usize> {
    Set::new(|x: usize| seen(v, k, x))
}

/// Whether `x` is among the first `k` items of `v`.
spec fn seen(v: Seq<usize>, k: int, x: usize) -> bool {
    exists|j: int| 0 <= j < k && v[j] == x
}

/// Whether `n` is among the first `k` names of `v`.
spec fn seen_name(v: Seq<String>, k: int, n: Seq<char>) -> bool {
    exists|j: int| 0 <= j < k && v[j]@ == n
}

fn contains_name(v: &Vec<String>, name: &String) -> (r: bool)
    ensures
        r == name_set(v@).contains(name@),
{
    let mut k: usize = 0;
    while k < v.len()
        invariant
            0 <= k <= v@.len(),
            forall|j: int| 0 <= j < k ==> v@[j]@ != name@,
        decreases v@.len() - k,
    {
        if v[k] == *name {
            return true;
        }
        k += 1;
    }
    false
}

/// `v` with `name` added unless it is there already.
fn with_name(v: &Vec<String>, name: &String) -> (r: Vec<String>)
    ensures
        name_set(r@) == name_set(v@).insert(name@),
{
    let mut r: Vec<String> = Vec::new();
    let mut k: usize = 0;
    while k < v.len()
        invariant
            0 <= k <= v@.len(),
            r@.len() == k,
            forall|j: int| 0 <= j < k ==> r@[j]@ == v@[j]@,
        decreases v@.len() - k,
    {
        r.push(v[k].clone());
        k += 1;
    }
    if !contains_name(v, name) {
        r.push(name.clone());
    }
    assert(name_set(r@) =~= name_set(v@).insert(name@)) by {
        assert forall|n: Seq<char>| name_set(v@).insert(name@).contains(n) implies name_set(r@).contains(n) by {
            if n != name@ {
                let j = choose|j: int| 0 <= j < v@.len() && v@[j]@ == n;
                assert(r@[j]@ == n);
            } else if name_set(v@).contains(name@) {
                let j = choose|j: int| 0 <= j < v@.len() && v@[j]@ == n;
                assert(r@[j]@ == n);
            } else {
                assert(r@[v@.len() as int]@ == n);
            }
        }
        assert forall|n: Seq<char>| name_set(r@).contains(n) implies name_set(v@).insert(name@).contains(n) by {
            let j = choose|j: int| 0 <= j < r@.len() && r@[j]@ == n;
            if j < v@.len() {
                assert(v@[j]@ == n);
            }
        }
    }
    r
}

/// `v` without any copy of `name`.
fn without_name(v: &Vec<String>, name: &String) -> (r: Vec<String>)
    ensures
        name_set(r@) == name_set(v@).remove(name@),
{
    let mut r: Vec<String> = Vec::new();
    let mut k: usize = 0;
    while k < v.len()
        invariant
            0 <= k <= v@.len(),
            forall|n: Seq<char>| name_set(r@).contains(n) <==> (n != name@ && seen_name(v@, k as int, n)),
        decreases v@.len() - k,
    {
        let ghost start = r@;
        assert forall|n: Seq<char>|
            seen_name(v@, k + 1, n) <==> (seen_name(v@, k as int, n) || n == v@[k as int]@) by {
            if n == v@[k as int]@ {
                assert(v@[k as int]@ == n);
            }
        }
        if v[k] != *name {
            r.push(v[k].clone());
            assert forall|n: Seq<char>| name_set(r@).contains(n) <==> (name_set(start).contains(n) || n == v@[k as int]@) by {
                if name_set(r@).contains(n) {
                    let j = choose|j: int| 0 <= j < r@.len() && r@[j]@ == n;
                    if j < start.len() {
                        assert(start[j]@ == n);
                    }
                }
                if name_set(start).contains(n) {
                    let j = choose|j: int| 0 <= j < start.len() && start[j]@ == n;
                    assert(r@[j]@ == n);
                }
                if n == v@[k as int]@ {
                    assert(r@[start.len() as int]@ == n);
                }
            }
        }
        assert forall|n: Seq<char>| name_set(r@).contains(n) <==> (n != name@ && seen_name(v@, k + 1, n)) by {
            assert(seen_name(v@, k + 1, n) <==> (seen_name(v@, k as int, n) || n == v@[k as int]@));
            assert(name_set(start).contains(n) <==> (n != name@ && seen_name(v@, k as int, n)));
        }
        k += 1;
    }
    assert(name_set(r@) =~= name_set(v@).remove(name@)) by {
        assert forall|n: Seq<char>| seen_name(v@, v@.len() as int, n) <==> name_set(v@).contains(n) by {
            if name_set(v@).contains(n) {
                let j = choose|j: int| 0 <= j < v@.len() && v@[j]@ == n;
            }
        }
    }
    r
}

fn contains_address(v: &Vec<IpAddress>, a: IpAddress) -> (r: bool)
    ensures
        r == v@.contains(a),
{
    let mut k: usize = 0;
    while k < v.len()
        invariant
            0 <= k <= v@.len(),
            forall|j: int| 0 <= j < k ==> v@[j] != a,
        decreases v@.len() - k,
    {
        if v[k] == a {
            return true;
        }
        k += 1;
    }
    false
}

/// Whether every address of `a` is in `b`.
fn all_contained(a: &Vec<IpAddress>, b: &Vec<IpAddress>) -> (r: bool)
    ensures
        r == (forall|x: IpAddress| a@.contains(x) ==> b@.contains(x)),
{
    let mut k: usize = 0;
    while k < a.len()
        invariant
            0 <= k <= a@.len(),
            forall|j: int| 0 <= j < k ==> b@.contains(a@[j]),
        decreases a@.len() - k,
    {
        if !contains_address(b, a[k]) {
            assert(a@.contains(a@[k as int]));
            return false;
        }
        k += 1;
    }
    assert forall|x: IpAddress| a@.contains(x) implies b@.contains(x) by {
        let j = choose|j: int| 0 <= j < a@.len() && a@[j] == x;
    }
    true
}

/// Whether `a` and `b` hold the same set of addresses.
fn same_address_set(a: &Vec<IpAddress>, b: &Vec<IpAddress>) -> (r: bool)
    ensures
        r == (a@.to_set() == b@.to_set()),
{
    let r = all_contained(a, b) && all_contained(b, a);
    proof {
        if r {
            assert(a@.to_set() =~= b@.to_set());
        }
        if a@.to_set() == b@.to_set() {
            assert forall|x: IpAddress| a@.contains(x) implies b@.contains(x) by {
                assert(a@.to_set().contains(x));
            }
            assert forall|x: IpAddress| b@.contains(x) implies a@.contains(x) by {
                assert(b@.to_set().contains(x));
            }
        }
    }
    r
}

impl DnsCacheEntry {
    fn copy(&self) -> (r: DnsCacheEntry)
        ensures
            r@ == self@,
            r.watchers@ == self.watchers@,
    {
        DnsCacheEntry {
            name: self.name.clone(),
            addresses: copy_addresses(&self.addresses),
            valid_until: self.valid_until,
            watchers: copy_ids(&self.watchers),
        }
    }
}

impl DnsService {
    /// The invariant of the service: one entry per name, and each entry
    /// names only watchers of this service, each once.
    pub closed spec fn wf(&self) -> bool {
        &&& names_unique(self.entries@)
        &&& self.updated@.len() == self.pending@.len()
        &&& forall|i: int|
            0 <= i < self.entries@.len() ==> {
                &&& (#[trigger] self.entries@[i]).watchers@.no_duplicates()
                &&& forall|k: int|
                    0 <= k < self.entries@[i].watchers@.len() ==> self.entries@[i].watchers@[k]
                        < self.pending@.len()
            }
    }

    /// An empty cache with no watchers.
    pub fn new() -> (r: DnsService)
        ensures
            r.wf(),
            r@.cache == Map::<Seq<char>, EntryModel>::empty(),
            r@.pending.len() == 0,
            r@.updated.len() == 0,
    {
        let r = DnsService { entries: Vec::new(), pending: Vec::new(), updated: Vec::new() };
        assert(r@.cache =~= Map::<Seq<char>, EntryModel>::empty());
        r
    }

    fn find_entry(&self, name: &String) -> (r: Option<usize>)
        requires
            self.wf(),
        ensures
            match r {
                Some(i) => i < self.entries@.len() && self.entries@[i as int].name@ == name@,
                None => !self@.cache.contains_key(name@),
            },
    {
        let mut i: usize = 0;
        while i < self.entries.len()
            invariant
                0 <= i <= self.entries@.len(),
                forall|k: int| 0 <= k < i ==> self.entries@[k].name@ != name@,
            decreases self.entries@.len() - i,
        {
            if self.entries[i].name == *name {
                return Some(i);
            }
            i += 1;
        }
        None
    }

    /// The cached entry of `name`, if it has one. Performs no lookup and
    /// changes nothing.
    pub fn resolve_if_cached(&self, name: &str) -> (r: Option<DnsCacheEntry>)
        requires
            self.wf(),
        ensures
            r is Some <==> self@.cache.contains_key(name@),
            r is Some ==> r->Some_0@ == self@.cache[name@],
    {
        let key = name.to_owned();
        match self.find_entry(&key) {
            Some(i) => {
                proof {
                    lemma_cache_at(self.entries@, i as int);
                }
                Some(self.entries[i].copy())
            },
            None => None,
        }
    }
    /// Stores what a fresh lookup of `name` returned, as an entry with no
    /// watcher, unless `name` already has an entry, which is then kept as it
    /// is. Returns the entry that `name` has afterwards.
    pub fn lookup_and_cache(&mut self, name: &str, fetched: LookupResult) -> (r: DnsCacheEntry)
        requires
            old(self).wf(),
        ensures
            final(self).wf(),
            final(self)@ == old(self)@.after_lookup(name@, fetched@),
            final(self)@.cache.contains_key(name@),
            r@ == final(self)@.cache[name@],
    {
        let key = name.to_owned();
        match self.find_entry(&key) {
            Some(i) => {
                proof {
                    lemma_cache_at(self.entries@, i as int);
                }
                self.entries[i].copy()
            },
            None => {
                let e = DnsCacheEntry {
                    name: key,
                    addresses: fetched.addresses,
                    valid_until: fetched.valid_until,
                    watchers: Vec::new(),
                };
                let r = e.copy();
                proof {
                    lemma_cache_push(self.entries@, e);
                    assert(e@.watchers =~= Set::<usize>::empty());
                }
                self.entries.push(e);
                proof {
                    assert(self@.cache =~= old(self)@.after_lookup(name@, fetched@).cache);
                    assert(self@.pending == old(self)@.pending);
                    assert(self@.updated == old(self)@.updated);
                }
                r
            },
        }
    }

    /// Creates a watcher that watches no name and has no pending
    /// notification.
    pub fn create_watcher(&mut self) -> (w: DnsWatcher)
        requires
            old(self).wf(),
        ensures
            final(self).wf(),
            w@.id == old(self)@.pending.len(),
            w@.watched == Set::<Seq<char>>::empty(),
            final(self)@.updated[w@.id as int] == Set::<Seq<char>>::empty(),
            !final(self)@.pending[w@.id as int],
            final(self)@ == (DnsModel {
                pending: old(self)@.pending.push(false),
                updated: old(self)@.updated.push(Set::empty()),
                ..old(self)@
            }),
    {
        let id = self.pending.len();
        self.pending.push(false);
        self.updated.push(Vec::new());
        let w = DnsWatcher { id, watched: Vec::new() };
        proof {
            assert(name_set(Seq::<String>::empty()) =~= Set::<Seq<char>>::empty());
            assert(self@.updated =~= old(self)@.updated.push(Set::empty()));
            assert(w@.watched =~= Set::<Seq<char>>::empty());
        }
        w
    }
    /// Registers watcher `id` on the entry at `i`.
    fn register_watcher(&mut self, i: usize, id: usize)
        requires
            old(self).wf(),
            i < old(self).entries@.len(),
            id < old(self)@.pending.len(),
        ensures
            final(self).wf(),
            final(self)@ == old(self)@.watch(old(self).entries@[i as int].name@, id),
    {
        let ghost name = self.entries@[i as int].name@;
        proof {
            lemma_cache_at(self.entries@, i as int);
        }
        let mut e = self.entries[i].copy();
        let ghost ws = e.watchers@;
        if !contains_id(&e.watchers, id) {
            e.watchers.push(id);
            proof {
                assert forall|a: int, b: int|
                    0 <= a < e.watchers@.len() && 0 <= b < e.watchers@.len() && a != b implies e.watchers@[a]
                    != e.watchers@[b] by {
                    if a < ws.len() && b < ws.len() {
                        assert(ws[a] != ws[b]);
                    } else if a < ws.len() {
                        assert(ws[a] != id);
                    } else if b < ws.len() {
                        assert(ws[b] != id);
                    }
                }
                assert forall|x: usize| e.watchers@.contains(x) <==> (ws.contains(x) || x == id) by {
                    if e.watchers@.contains(x) {
                        let j = choose|j: int| 0 <= j < e.watchers@.len() && e.watchers@[j] == x;
                        if j < ws.len() {
                            assert(ws[j] == x);
                        }
                    }
                    if ws.contains(x) {
                        let j = choose|j: int| 0 <= j < ws.len() && ws[j] == x;
                        assert(e.watchers@[j] == x);
                    }
                    if x == id {
                        assert(e.watchers@[ws.len() as int] == x);
                    }
                }
            }
        }
        proof {
            assert(e@.watchers =~= ws.to_set().insert(id));
        }
        let ghost old_entries = self.entries@;
        self.entries.set(i, e);
        proof {
            lemma_cache_replace(old_entries, self.entries@, i as int);
            assert(self@.cache =~= old(self)@.watch(name, id).cache);
        }
    }

    /// Takes watcher `id` off the entry at `i`.
    fn unregister_watcher(&mut self, i: usize, id: usize)
        requires
            old(self).wf(),
            i < old(self).entries@.len(),
        ensures
            final(self).wf(),
            final(self)@ == old(self)@.unwatch(old(self).entries@[i as int].name@, id),
    {
        let ghost name = self.entries@[i as int].name@;
        proof {
            lemma_cache_at(self.entries@, i as int);
        }
        let mut e = self.entries[i].copy();
        let ghost ws = e.watchers@;
        e.watchers = without_id(&e.watchers, id);
        proof {
            assert(e@.watchers =~= ws.to_set().remove(id));
            assert forall|k: int| 0 <= k < e.watchers@.len() implies e.watchers@[k] < self.pending@.len() by {
                assert(e.watchers@.contains(e.watchers@[k]));
                assert(ws.contains(e.watchers@[k]));
            }
        }
        let ghost old_entries = self.entries@;
        self.entries.set(i, e);
        proof {
            lemma_cache_replace(old_entries, self.entries@, i as int);
            assert(self@.cache =~= old(self)@.unwatch(name, id).cache);
        }
    }

    /// Takes watcher `id` off the entry of `name`; tells whether `name` has
    /// an entry.
    fn unwatch_name(&mut self, name: &String, id: usize) -> (found: bool)
        requires
            old(self).wf(),
        ensures
            final(self).wf(),
            found == old(self)@.cache.contains_key(name@),
            final(self)@ == old(self)@.unwatch(name@, id),
    {
        match self.find_entry(name) {
            Some(i) => {
                proof {
                    lemma_cache_at(self.entries@, i as int);
                }
                self.unregister_watcher(i, id);
                true
            },
            None => {
                assert(self@ == old(self)@.unwatch(name@, id));
                false
            },
        }
    }
}

/// Taking a watcher off one more name extends the set of names it was
/// taken off.
proof fn lemma_unwatch_all_step(m: DnsModel, names: Set<Seq<char>>, n: Seq<char>, id: usize)
    ensures
        m.unwatch_all(names, id).unwatch(n, id) == m.unwatch_all(names.insert(n), id),
{
    let l = m.unwatch_all(names, id).unwatch(n, id);
    let r = m.unwatch_all(names.insert(n), id);
    assert forall|k: Seq<char>| #[trigger] l.cache.contains_key(k) implies l.cache[k] == r.cache[k] by {
        if k == n && names.contains(n) {
            assert(m.cache[k].watchers.remove(id).remove(id) =~= m.cache[k].watchers.remove(id));
        }
    }
    assert(l.cache =~= r.cache);
}

proof fn lemma_unwatch_none(m: DnsModel, id: usize)
    ensures
        m.unwatch_all(Set::empty(), id) == m,
{
    assert(m.unwatch_all(Set::empty(), id).cache =~= m.cache);
}

/// The error of a watcher operation on a name that has no entry.
#[derive(Clone, Copy, Debug, PartialEq, Eq, Structural)]
pub enum WatchError {
    UnknownName,
}

impl DnsWatcher {
    /// The number the service gave this watcher.
    pub fn id(&self) -> (r: usize)
        ensures
            r == self@.id,
    {
        self.id
    }

    /// The names this watcher watches.
    pub fn watched_names(&self) -> (r: Vec<String>)
        ensures
            name_set(r@) == self@.watched,
    {
        let mut r: Vec<String> = Vec::new();
        let mut k: usize = 0;
        while k < self.watched.len()
            invariant
                0 <= k <= self.watched@.len(),
                r@.len() == k,
                forall|j: int| 0 <= j < k ==> r@[j]@ == self.watched@[j]@,
            decreases self.watched@.len() - k,
        {
            r.push(self.watched[k].clone());
            k += 1;
        }
        assert(name_set(r@) =~= name_set(self.watched@)) by {
            assert forall|n: Seq<char>| name_set(self.watched@).contains(n) implies name_set(r@).contains(n) by {
                let j = choose|j: int| 0 <= j < self.watched@.len() && self.watched@[j]@ == n;
                assert(r@[j]@ == n);
            }
            assert forall|n: Seq<char>| name_set(r@).contains(n) implies name_set(self.watched@).contains(n) by {
                let j = choose|j: int| 0 <= j < r@.len() && r@[j]@ == n;
                assert(self.watched@[j]@ == n);
            }
        }
        r
    }

    /// Registers this watcher on the cached entry of `name` and returns the
    /// addresses of that entry as they are now. `None` when `name` has not
    /// been resolved yet; nothing changes then.
    pub fn resolve_and_watch(&mut self, service: &mut DnsService, name: &str) -> (r: Option<
        Vec<IpAddress>,
    >)
        requires
            old(service).wf(),
            old(self)@.id < old(service)@.pending.len(),
        ensures
            final(service).wf(),
            r is Some <==> old(service)@.cache.contains_key(name@),
            r is Some ==> {
                &&& r->Some_0@ == old(service)@.cache[name@].addresses
                &&& final(service)@ == old(service)@.watch(name@, old(self)@.id)
                &&& final(self)@ == WatcherModel {
                    watched: old(self)@.watched.insert(name@),
                    ..old(self)@
                }
            },
            r is None ==> final(service)@ == old(service)@ && final(self)@ == old(self)@,
    {
        let key = name.to_owned();
        match service.find_entry(&key) {
            Some(i) => {
                proof {
                    lemma_cache_at(service.entries@, i as int);
                }
                let addresses = copy_addresses(&service.entries[i].addresses);
                service.register_watcher(i, self.id);
                self.watched = with_name(&self.watched, &key);
                Some(addresses)
            },
            None => None,
        }
    }

    /// Stops watching `name`: takes this watcher off its entry and forgets
    /// the name. Fails, changing nothing, when `name` has no entry.
    pub fn remove_watched_name(&mut self, service: &mut DnsService, name: &str) -> (r: Result<
        (),
        WatchError,
    >)
        requires
            old(service).wf(),
        ensures
            final(service).wf(),
            r is Ok <==> old(service)@.cache.contains_key(name@),
            r is Ok ==> final(service)@ == old(service)@.unwatch(name@, old(self)@.id) && final(self)@
                == (WatcherModel { watched: old(self)@.watched.remove(name@), ..old(self)@ }),
            r is Err ==> final(service)@ == old(service)@ && final(self)@ == old(self)@,
    {
        let key = name.to_owned();
        if service.unwatch_name(&key, self.id) {
            self.watched = without_name(&self.watched, &key);
            Ok(())
        } else {
            Err(WatchError::UnknownName)
        }
    }

    /// Stops watching every name: takes this watcher off the entries of all
    /// the names it watched, and forgets them.
    pub fn clear_watched_names(&mut self, service: &mut DnsService)
        requires
            old(service).wf(),
        ensures
            final(service).wf(),
            final(service)@ == old(service)@.unwatch_all(old(self)@.watched, old(self)@.id),
            final(self)@ == (WatcherModel { watched: Set::empty(), ..old(self)@ }),
    {
        let ghost s0 = service@;
        let mut k: usize = 0;
        proof {
            assert(Set::new(|n: Seq<char>| seen_name(self.watched@, 0, n)) =~= Set::<Seq<char>>::empty());
            lemma_unwatch_none(s0, self.id);
        }
        while k < self.watched.len()
            invariant
                0 <= k <= self.watched@.len(),
                service.wf(),
                service@ == s0.unwatch_all(
                    Set::new(|n: Seq<char>| seen_name(self.watched@, k as int, n)),
                    self.id,
                ),
            decreases self.watched@.len() - k,
        {
            let ghost before = Set::new(|n: Seq<char>| seen_name(self.watched@, k as int, n));
            service.unwatch_name(&self.watched[k], self.id);
            proof {
                lemma_unwatch_all_step(s0, before, self.watched@[k as int]@, self.id);
                assert(before.insert(self.watched@[k as int]@) =~= Set::new(
                    |n: Seq<char>| seen_name(self.watched@, k + 1, n),
                ));
            }
            k += 1;
        }
        proof {
            assert(Set::new(|n: Seq<char>| seen_name(self.watched@, self.watched@.len() as int, n))
                =~= name_set(self.watched@));
        }
        self.watched = Vec::new();
        proof {
            assert(name_set(self.watched@) =~= Set::<Seq<char>>::empty());
        }
    }

    /// Observes the notification of this watcher: tells whether one was
    /// raised since it was last observed, and lowers it.
    pub fn address_changed(&self, service: &mut DnsService) -> (r: bool)
        requires
            old(service).wf(),
        ensures
            final(service).wf(),
            self@.id < old(service)@.pending.len() ==> r == old(service)@.pending[self@.id as int]
                && final(service)@ == (DnsModel {
                pending: old(service)@.pending.update(self@.id as int, false),
                ..old(service)@
            }),
            self@.id >= old(service)@.pending.len() ==> !r && final(service)@ == old(service)@,
    {
        if self.id < service.pending.len() {
            let r = service.pending[self.id];
            service.pending.set(self.id, false);
            r
        } else {
            false
        }
    }
}

proof fn lemma_watcher_bound(s: &DnsService, i: int, k: int)
    requires
        s.wf(),
        0 <= i < s.entries@.len(),
        0 <= k < s.entries@[i].watchers@.len(),
    ensures
        s.entries@[i].watchers@[k] < s.pending@.len(),
{
    let e = s.entries@[i];
    assert(e.watchers@.no_duplicates());
}

impl DnsService {
    /// Raises the notification of each watcher of the entry at `i`, records
    /// `name` against it, and adds it to `notified` unless it is there.
    fn notify_watchers(&mut self, i: usize, name: &String, notified: &mut Vec<usize>)
        requires
            old(self).wf(),
            i < old(self).entries@.len(),
            old(notified)@.no_duplicates(),
        ensures
            final(self).wf(),
            final(self).entries@ == old(self).entries@,
            final(self)@.pending == Seq::new(
                old(self)@.pending.len(),
                |w: int|
                    old(self)@.pending[w] || old(self).entries@[i as int]@.watchers.contains(
                        w as usize,
                    ),
            ),
            final(self)@.updated == Seq::new(
                old(self)@.updated.len(),
                |w: int|
                    if old(self).entries@[i as int]@.watchers.contains(w as usize) {
                        old(self)@.updated[w].insert(name@)
                    } else {
                        old(self)@.updated[w]
                    },
            ),
            final(notified)@.no_duplicates(),
            forall|x: usize|
                final(notified)@.contains(x) <==> (old(notified)@.contains(x) || old(
                    self,
                ).entries@[i as int]@.watchers.contains(x)),
    {
        let ghost p0 = self@.pending;
        let ghost u0 = self@.updated;
        let ghost n0 = notified@;
        let ws = copy_ids(&self.entries[i].watchers);
        let mut j: usize = 0;
        proof {
            assert(seen_set(ws@, 0) =~= Set::<usize>::empty());
            assert(notified@.to_set() =~= n0.to_set().union(seen_set(ws@, 0)));
            assert(self@.pending =~= Seq::new(p0.len(), |w: int| p0[w] || seen(ws@, 0, w as usize)));
            assert(self@.updated =~= Seq::new(
                u0.len(),
                |w: int|
                    if seen(ws@, 0, w as usize) {
                        u0[w].insert(name@)
                    } else {
                        u0[w]
                    },
            ));
        }
        while j < ws.len()
            invariant
                0 <= j <= ws@.len(),
                i < old(self).entries@.len(),
                ws@ == old(self).entries@[i as int].watchers@,
                self.wf(),
                self.entries@ == old(self).entries@,
                p0 == old(self)@.pending,
                u0 == old(self)@.updated,
                n0 == old(notified)@,
                self@.pending == Seq::new(p0.len(), |w: int| p0[w] || seen(ws@, j as int, w as usize)),
                self@.updated == Seq::new(
                    u0.len(),
                    |w: int|
                        if seen(ws@, j as int, w as usize) {
                            u0[w].insert(name@)
                        } else {
                            u0[w]
                        },
                ),
                notified@.no_duplicates(),
                notified@.to_set() == n0.to_set().union(seen_set(ws@, j as int)),
            decreases ws@.len() - j,
        {
            let w = ws[j];
            proof {
                lemma_watcher_bound(self, i as int, j as int);
            }
            let plen = self.pending.len();
            assert forall|x: usize| seen(ws@, j + 1, x) <==> (seen(ws@, j as int, x) || x == w) by {
                if x == w {
                    assert(ws@[j as int] == x);
                }
            }
            let ghost pb = self@.pending;
            self.pending.set(w, true);
            assert forall|q: int| 0 <= q < p0.len() implies self@.pending[q] == (p0[q] || seen(ws@, j + 1, q as usize)) by {
                if q != w as int {
                    assert(self@.pending[q] == pb[q]);
                    assert((q as usize) != w);
                }
            }
            let u = with_name(&self.updated[w], name);
            let ghost ub = self@.updated;
            let ghost uvb = self.updated@;
            let ulen = self.updated.len();
            self.updated.set(w, u);
            assert forall|q: int| 0 <= q < u0.len() implies self@.updated[q] == (if seen(ws@, j + 1, q as usize) {
                u0[q].insert(name@)
            } else {
                u0[q]
            }) by {
                assert(ub.len() == uvb.len());
                if q == w as int {
                    assert(self.updated@[q] == u);
                    assert(ub[q] == name_set(uvb[q]@));
                    assert(self@.updated[q] == name_set(u@));
                    assert(self@.updated[q] =~= u0[q].insert(name@));
                } else {
                    assert(q < ulen);
                    assert(self.updated@[q] == uvb[q]);
                    assert(self@.updated[q] == ub[q]);
                    assert((q as usize) != w);
                }
            }
            let ghost nb = notified@;
            let present = contains_id(notified, w);
            if !present {
                notified.push(w);
                proof {
                    assert forall|a: int, b: int|
                        0 <= a < notified@.len() && 0 <= b < notified@.len() && a != b implies notified@[a]
                        != notified@[b] by {
                        if a < nb.len() && b < nb.len() {
                            assert(nb[a] != nb[b]);
                        } else if a < nb.len() {
                            assert(nb[a] != w);
                        } else if b < nb.len() {
                            assert(nb[b] != w);
                        }
                    }
                    assert forall|x: usize| notified@.contains(x) <==> (nb.contains(x) || x == w) by {
                        if notified@.contains(x) {
                            let q = choose|q: int| 0 <= q < notified@.len() && notified@[q] == x;
                            if q < nb.len() {
                                assert(nb[q] == x);
                            }
                        }
                        if nb.contains(x) {
                            let q = choose|q: int| 0 <= q < nb.len() && nb[q] == x;
                            assert(notified@[q] == x);
                        }
                        if x == w {
                            assert(notified@[nb.len() as int] == x);
                        }
                    }
                }
            }
            proof {
                assert(self@.pending =~= Seq::new(
                    p0.len(),
                    |q: int| p0[q] || seen(ws@, j + 1, q as usize),
                ));
                assert(self@.updated =~= Seq::new(
                    u0.len(),
                    |q: int|
                        if seen(ws@, j + 1, q as usize) {
                            u0[q].insert(name@)
                        } else {
                            u0[q]
                        },
                ));
                assert(notified@.contains(w));
                assert forall|x: usize| notified@.contains(x) <==> (nb.contains(x) || x == w) by {
                    if present {
                        assert(notified@ == nb);
                    }
                }
            }
            proof {
                assert(notified@.to_set() =~= nb.to_set().insert(w));
                assert(seen_set(ws@, j + 1) =~= seen_set(ws@, j as int).insert(w));
            }
            j += 1;
        }
        proof {
            assert forall|x: usize| seen(ws@, ws@.len() as int, x) <==> ws@.to_set().contains(x) by {
                if ws@.contains(x) {
                    let q = choose|q: int| 0 <= q < ws@.len() && ws@[q] == x;
                }
            }
            assert(self@.pending =~= Seq::new(
                p0.len(),
                |w: int| p0[w] || old(self).entries@[i as int]@.watchers.contains(w as usize),
            ));
            assert(n0 == old(notified)@);
            assert forall|x: usize|
                notified@.contains(x) <==> (old(notified)@.contains(x) || old(
                    self,
                ).entries@[i as int]@.watchers.contains(x)) by {
                assert(notified@.to_set().contains(x) <==> notified@.contains(x));
                assert(n0.to_set().contains(x) <==> n0.contains(x));
                assert(seen_set(ws@, j as int).contains(x) <==> seen(ws@, j as int, x));
                assert(seen(ws@, ws@.len() as int, x) <==> ws@.contains(x));
                assert(ws@.to_set().contains(x) <==> ws@.contains(x));
                assert(old(self).entries@[i as int]@.watchers == ws@.to_set());
            }
            assert(self@.updated =~= Seq::new(
                u0.len(),
                |w: int|
                    if old(self).entries@[i as int]@.watchers.contains(w as usize) {
                        u0[w].insert(name@)
                    } else {
                        u0[w]
                    },
            ));
        }
    }
}

impl DnsService {
    /// Refreshes the entry of `name` with the outcome of a fresh lookup, and
    /// adds the watchers that this notifies to `notified`.
    fn refresh_entry(&mut self, name: &String, outcome: &Option<LookupResult>, notified: &mut Vec<usize>)
        requires
            old(self).wf(),
            old(notified)@.no_duplicates(),
        ensures
            final(self).wf(),
            final(self)@ == old(self)@.refresh_step(name@, outcome_view(*outcome)),
            final(notified)@.no_duplicates(),
            final(notified)@.to_set() == old(notified)@.to_set().union(
                old(self)@.step_notifies(name@, outcome_view(*outcome)),
            ),
    {
        let ghost s0 = self@;
        match outcome {
            None => {
                assert(notified@.to_set() =~= old(notified)@.to_set().union(Set::empty()));
            },
            Some(f) => match self.find_entry(name) {
                None => {
                    assert(notified@.to_set() =~= old(notified)@.to_set().union(Set::empty()));
                },
                Some(i) => {
                    proof {
                        lemma_cache_at(self.entries@, i as int);
                    }
                    let changed = !same_address_set(&self.entries[i].addresses, &f.addresses);
                    let ghost ws = s0.step_notifies(name@, Some(f@));
                    if changed {
                        self.notify_watchers(i, name, notified);
                        proof {
                            assert(ws == self.entries@[i as int]@.watchers);
                            assert(notified@.to_set() =~= old(notified)@.to_set().union(ws));
                            assert(self@.pending =~= Seq::new(
                                s0.pending.len(),
                                |w: int| s0.pending[w] || ws.contains(w as usize),
                            ));
                        }
                    } else {
                        proof {
                            assert(ws =~= Set::<usize>::empty());
                            assert(notified@.to_set() =~= old(notified)@.to_set().union(ws));
                            assert(self@.pending =~= Seq::new(
                                s0.pending.len(),
                                |w: int| s0.pending[w] || ws.contains(w as usize),
                            ));
                            assert(self@.updated =~= Seq::new(
                                s0.updated.len(),
                                |w: int|
                                    if ws.contains(w as usize) {
                                        s0.updated[w].insert(name@)
                                    } else {
                                        s0.updated[w]
                                    },
                            ));
                        }
                    }
                    let e = DnsCacheEntry {
                        name: self.entries[i].name.clone(),
                        addresses: copy_addresses(&f.addresses),
                        valid_until: f.valid_until,
                        watchers: copy_ids(&self.entries[i].watchers),
                    };
                    let ghost old_entries = self.entries@;
                    self.entries.set(i, e);
                    proof {
                        lemma_cache_replace(old_entries, self.entries@, i as int);
                        assert(self.entries@[i as int]@.watchers == old_entries[i as int]@.watchers);
                        assert(self@.cache =~= s0.refresh_step(name@, Some(f@)).cache);
                        assert forall|j: int| 0 <= j < self.entries@.len() implies {
                            &&& (#[trigger] self.entries@[j]).watchers@.no_duplicates()
                            &&& forall|k: int|
                                0 <= k < self.entries@[j].watchers@.len() ==> self.entries@[j].watchers@[k]
                                    < self.pending@.len()
                        } by {
                            assert(old_entries[j].watchers@ == self.entries@[j].watchers@);
                        }
                    }
                },
            },
        }
    }

    /// Runs one refresh cycle: refreshes each name of `due`, in order, with
    /// the outcome at the same position of `outcomes` (`None` for a failed
    /// lookup), and returns each watcher to notify, once.
    pub fn refresh_cycle(&mut self, due: &Vec<String>, outcomes: &Vec<Option<LookupResult>>) -> (notified: Vec<usize>)
        requires
            old(self).wf(),
            due@.len() == outcomes@.len(),
        ensures
            final(self).wf(),
            final(self)@ == old(self)@.refresh_cycle(names_view(due@), outcomes_view(outcomes@)),
            notified@.no_duplicates(),
            notified@.to_set() == old(self)@.cycle_notifies(names_view(due@), outcomes_view(outcomes@)),
    {
        let ghost s0 = self@;
        let mut notified: Vec<usize> = Vec::new();
        let mut k: usize = 0;
        proof {
            assert(names_view(due@.subrange(0, 0)) =~= Seq::<Seq<char>>::empty());
            assert(outcomes_view(outcomes@.subrange(0, 0)) =~= Seq::<Option<LookupModel>>::empty());
            assert(notified@.to_set() =~= Set::<usize>::empty());
        }
        while k < due.len()
            invariant
                0 <= k <= due@.len(),
                due@.len() == outcomes@.len(),
                self.wf(),
                notified@.no_duplicates(),
                self@ == s0.refresh_cycle(
                    names_view(due@.subrange(0, k as int)),
                    outcomes_view(outcomes@.subrange(0, k as int)),
                ),
                notified@.to_set() == s0.cycle_notifies(
                    names_view(due@.subrange(0, k as int)),
                    outcomes_view(outcomes@.subrange(0, k as int)),
                ),
            decreases due@.len() - k,
        {
            let ghost ns = names_view(due@.subrange(0, k + 1));
            let ghost os = outcomes_view(outcomes@.subrange(0, k + 1));
            self.refresh_entry(&due[k], &outcomes[k], &mut notified);
            proof {
                assert(ns.drop_last() =~= names_view(due@.subrange(0, k as int)));
                assert(os.drop_last() =~= outcomes_view(outcomes@.subrange(0, k as int)));
                assert(ns.last() == due@[k as int]@);
                assert(os.last() == outcome_view(outcomes@[k as int]));
            }
            k += 1;
        }
        proof {
            assert(due@.subrange(0, due@.len() as int) =~= due@);
            assert(outcomes@.subrange(0, outcomes@.len() as int) =~= outcomes@);
        }
        notified
    }
}

/// When the next refresh cycle starts: at the earliest expiry (now when
/// there is none), but never sooner than the refresh floor after `now`;
/// the clock's last second when that lies beyond it.
pub open spec fn refresh_time_spec(now: u64, next_expiry: Option<u64>) -> int {
    let wanted = match next_expiry {
        Some(t) => if t as int >= now + MIN_TIME_BEFORE_REFRESH {
            t as int
        } else {
            now + MIN_TIME_BEFORE_REFRESH
        },
        None => now + MIN_TIME_BEFORE_REFRESH,
    };
    if wanted > u64::MAX {
        u64::MAX as int
    } else {
        wanted
    }
}

/// The names of the cache that are due for a refresh at `now`.
pub open spec fn due_set(m: DnsModel, now: u64) -> Set<Seq<char>> {
    Set::new(|n: Seq<char>| m.cache.contains_key(n) && is_due(m.cache[n].valid_until, now))
}

impl DnsService {
    /// The names whose entries are due for a refresh at `now`: those with at
    /// most the refresh floor of validity left, expired ones included,
    /// earliest expiry first.
    pub fn due_names(&self, now: u64) -> (r: Vec<String>)
        requires
            self.wf(),
        ensures
            name_set(r@) == due_set(self@, now),
            names_view(r@).no_duplicates(),
            forall|a: int, b: int|
                0 <= a < b < r@.len() ==> self@.cache[r@[a]@].valid_until
                    <= self@.cache[r@[b]@].valid_until,
    {
        let mut r: Vec<String> = Vec::new();
        let mut keys: Vec<u64> = Vec::new();
        let mut i: usize = 0;
        while i < self.entries.len()
            invariant
                0 <= i <= self.entries@.len(),
                r@.len() == keys@.len(),
                names_unique(self.entries@),
                forall|a: int, b: int| 0 <= a < b < r@.len() ==> r@[a]@ != r@[b]@,
                forall|a: int, b: int| 0 <= a < b < keys@.len() ==> keys@[a] <= keys@[b],
                forall|k: int|
                    0 <= k < r@.len() ==> exists|j: int|
                        0 <= j < i && self.entries@[j].name@ == (#[trigger] r@[k])@
                            && self.entries@[j].valid_until == keys@[k],
                forall|n: Seq<char>|
                    name_set(r@).contains(n) <==> exists|j: int|
                        0 <= j < i && self.entries@[j].name@ == n && is_due(
                            self.entries@[j].valid_until,
                            now,
                        ),
            decreases self.entries@.len() - i,
        {
            let vu = self.entries[i].valid_until;
            let ghost before = r@;
            let ghost kb = keys@;
            let due = vu <= now || vu - now <= MIN_TIME_BEFORE_REFRESH;
            assert(due == is_due(self.entries@[i as int].valid_until, now));
            if due {
                let mut p: usize = 0;
                while p < keys.len() && keys[p] <= vu
                    invariant
                        0 <= p <= keys@.len(),
                        keys@ == kb,
                        forall|q: int| 0 <= q < p ==> keys@[q] <= vu,
                    decreases keys@.len() - p,
                {
                    p += 1;
                }
                r.insert(p, self.entries[i].name.clone());
                keys.insert(p, vu);
                assert forall|a: int, b: int| 0 <= a < b < keys@.len() implies keys@[a] <= keys@[b] by {
                    if p < kb.len() {
                        assert(kb[p as int] > vu);
                        if b > p && a <= p {
                            assert(kb[p as int] <= kb[b - 1]);
                        }
                    }
                    if a < p && b > p {
                        assert(kb[a] <= vu);
                    }
                }
                assert forall|k: int| 0 <= k < r@.len() implies exists|j: int|
                    0 <= j < i + 1 && self.entries@[j].name@ == (#[trigger] r@[k])@ && self.entries@[j].valid_until
                        == keys@[k] by {
                    if k < p {
                        assert(r@[k] == before[k] && keys@[k] == kb[k]);
                    } else if k == p {
                        assert(self.entries@[i as int].name@ == r@[k]@);
                    } else {
                        assert(r@[k] == before[k - 1] && keys@[k] == kb[k - 1]);
                    }
                }
                assert forall|k: int| 0 <= k < before.len() implies before[k]@ != self.entries@[i as int].name@ by {
                    let j = choose|j: int|
                        0 <= j < i && self.entries@[j].name@ == before[k]@
                            && self.entries@[j].valid_until == kb[k];
                    assert(self.entries@[j].name@ != self.entries@[i as int].name@);
                }
                assert forall|a: int, b: int| 0 <= a < b < r@.len() implies r@[a]@ != r@[b]@ by {
                    if a < p && b < p {
                        assert(before[a]@ != before[b]@);
                    } else if a < p && b == p {
                        assert(before[a]@ != self.entries@[i as int].name@);
                    } else if a < p {
                        assert(before[a]@ != before[b - 1]@);
                    } else if a == p {
                        assert(before[b - 1]@ != self.entries@[i as int].name@);
                    } else {
                        assert(before[a - 1]@ != before[b - 1]@);
                    }
                }
                assert forall|n: Seq<char>| name_set(r@).contains(n) <==> (name_set(before).contains(n) || n == self.entries@[i as int].name@) by {
                    if name_set(r@).contains(n) {
                        let q = choose|q: int| 0 <= q < r@.len() && r@[q]@ == n;
                        if q < p {
                            assert(before[q]@ == n);
                        } else if q > p {
                            assert(before[q - 1]@ == n);
                        }
                    }
                    if name_set(before).contains(n) {
                        let q = choose|q: int| 0 <= q < before.len() && before[q]@ == n;
                        if q < p {
                            assert(r@[q]@ == n);
                        } else {
                            assert(r@[q + 1]@ == n);
                        }
                    }
                    if n == self.entries@[i as int].name@ {
                        assert(r@[p as int]@ == n);
                    }
                }
            }
            assert forall|n: Seq<char>|
                name_set(r@).contains(n) <==> exists|j: int|
                    0 <= j < i + 1 && self.entries@[j].name@ == n && is_due(
                        self.entries@[j].valid_until,
                        now,
                    ) by {
                assert(name_set(before).contains(n) <==> exists|j: int|
                    0 <= j < i && self.entries@[j].name@ == n && is_due(
                        self.entries@[j].valid_until,
                        now,
                    ));
                if due {
                    assert(name_set(r@).contains(n) <==> (name_set(before).contains(n) || n
                        == self.entries@[i as int].name@));
                } else {
                    assert(r@ == before);
                }
            }
            i += 1;
        }
        assert forall|n: Seq<char>| name_set(r@).contains(n) <==> due_set(self@, now).contains(n) by {
            if name_set(r@).contains(n) {
                let j = choose|j: int|
                    0 <= j < self.entries@.len() && self.entries@[j].name@ == n && is_due(
                        self.entries@[j].valid_until,
                        now,
                    );
                lemma_cache_at(self.entries@, j);
            }
            if due_set(self@, now).contains(n) {
                let j = choose|j: int| 0 <= j < self.entries@.len() && self.entries@[j].name@ == n;
                lemma_cache_at(self.entries@, j);
            }
        }
        assert(name_set(r@) =~= due_set(self@, now));
        assert forall|a: int, b: int|
            0 <= a < names_view(r@).len() && 0 <= b < names_view(r@).len() && a != b implies names_view(
            r@,
        )[a] != names_view(r@)[b] by {
            if a < b {
                assert(r@[a]@ != r@[b]@);
            } else {
                assert(r@[b]@ != r@[a]@);
            }
        }
        assert forall|k: int| 0 <= k < r@.len() implies self@.cache[r@[k]@].valid_until == keys@[k] by {
            let j = choose|j: int|
                0 <= j < self.entries@.len() && self.entries@[j].name@ == r@[k]@
                    && self.entries@[j].valid_until == keys@[k];
            lemma_cache_at(self.entries@, j);
        }
        r
    }

    /// The earliest second until which an entry is valid; `None` for an
    /// empty cache.
    pub fn next_expiry(&self) -> (r: Option<u64>)
        requires
            self.wf(),
        ensures
            r is None <==> self@.cache.dom() == Set::<Seq<char>>::empty(),
            r is Some ==> (exists|n: Seq<char>|
                self@.cache.contains_key(n) && self@.cache[n].valid_until == r->Some_0),
            r is Some ==> (forall|n: Seq<char>|
                self@.cache.contains_key(n) ==> r->Some_0 <= self@.cache[n].valid_until),
    {
        let mut best: Option<u64> = None;
        let mut i: usize = 0;
        while i < self.entries.len()
            invariant
                0 <= i <= self.entries@.len(),
                best is None <==> i == 0,
                best is Some ==> exists|j: int|
                    0 <= j < i && self.entries@[j].valid_until == best->Some_0,
                best is Some ==> forall|j: int|
                    0 <= j < i ==> best->Some_0 <= self.entries@[j].valid_until,
            decreases self.entries@.len() - i,
        {
            let vu = self.entries[i].valid_until;
            match best {
                Some(b) => if vu < b {
                    best = Some(vu);
                },
                None => {
                    best = Some(vu);
                },
            }
            i += 1;
        }
        proof {
            if best is Some {
                let j = choose|j: int|
                    0 <= j < self.entries@.len() && self.entries@[j].valid_until == best->Some_0;
                lemma_cache_at(self.entries@, j);
                assert forall|n: Seq<char>| self@.cache.contains_key(n) implies best->Some_0
                    <= self@.cache[n].valid_until by {
                    let k = choose|k: int| 0 <= k < self.entries@.len() && self.entries@[k].name@ == n;
                    lemma_cache_at(self.entries@, k);
                }
                lemma_cache_at(self.entries@, 0);
                assert(self@.cache.dom().contains(self.entries@[0].name@));
            } else {
                assert(self@.cache.dom() =~= Set::<Seq<char>>::empty());
            }
        }
        best
    }

    /// When the next refresh cycle starts, given the time now and the
    /// earliest expiry in the cache.
    pub fn next_refresh_time(now: u64, next_expiry: Option<u64>) -> (r: u64)
        ensures
            r as int == refresh_time_spec(now, next_expiry),
            r as int >= now + MIN_TIME_BEFORE_REFRESH || r == u64::MAX,
    {
        let floor = now.saturating_add(MIN_TIME_BEFORE_REFRESH);
        match next_expiry {
            Some(t) => if t >= floor {
                t
            } else {
                floor
            },
            None => floor,
        }
    }
}

/// A well-formed service has a consistent abstract value: every watcher
/// registered on an entry has a pending flag and a set of changed names.
pub proof fn lemma_wf_consistent(s: &DnsService)
    requires
        s.wf(),
    ensures
        s@.consistent(),
{
    assert forall|n: Seq<char>, w: usize|
        s@.cache.contains_key(n) && #[trigger] s@.cache[n].watchers.contains(w) implies w
        < s@.pending.len() by {
        let i = choose|i: int| 0 <= i < s.entries@.len() && s.entries@[i].name@ == n;
        lemma_cache_at(s.entries@, i);
        let k = choose|k: int| 0 <= k < s.entries@[i].watchers@.len() && s.entries@[i].watchers@[k] == w;
        lemma_watcher_bound(s, i, k);
    }
}

/// Resolving a name a second time, with no refresh in between, finds it in
/// the cache, so that no second lookup is made, and returns the entry of
/// the first call unchanged, whatever a second lookup would have returned.
pub proof fn lemma_resolve_twice(m: DnsModel, name: Seq<char>, first: LookupModel, second: LookupModel)
    ensures
        m.after_lookup(name, first).cache.contains_key(name),
        m.after_lookup(name, first).after_lookup(name, second) == m.after_lookup(name, first),
{
}

/// A refresh that finds the same set of addresses replaces the entry, with
/// its new validity and the same watchers, and notifies no watcher.
pub proof fn lemma_unchanged_refresh(m: DnsModel, name: Seq<char>, fetched: LookupModel)
    requires
        m.cache.contains_key(name),
        fetched.addresses.to_set() == m.cache[name].addresses.to_set(),
    ensures
        m.step_notifies(name, Some(fetched)) == Set::<usize>::empty(),
        m.refresh_step(name, Some(fetched)).cache[name].valid_until == fetched.valid_until,
        m.refresh_step(name, Some(fetched)).cache[name].addresses == fetched.addresses,
        m.refresh_step(name, Some(fetched)).cache[name].watchers == m.cache[name].watchers,
        m.refresh_step(name, Some(fetched)).pending == m.pending,
        m.refresh_step(name, Some(fetched)).updated == m.updated,
{
    let r = m.refresh_step(name, Some(fetched));
    assert(r.pending =~= m.pending);
    assert(r.updated =~= m.updated);
}

proof fn lemma_cycle_notifies_grows(
    m: DnsModel,
    names: Seq<Seq<char>>,
    outcomes: Seq<Option<LookupModel>>,
    k: int,
)
    requires
        names.len() == outcomes.len(),
        0 <= k <= names.len(),
    ensures
        m.cycle_notifies(names.subrange(0, k), outcomes.subrange(0, k)).subset_of(
            m.cycle_notifies(names, outcomes),
        ),
    decreases names.len(),
{
    if k < names.len() {
        assert(names.drop_last().subrange(0, k) =~= names.subrange(0, k));
        assert(outcomes.drop_last().subrange(0, k) =~= outcomes.subrange(0, k));
        lemma_cycle_notifies_grows(m, names.drop_last(), outcomes.drop_last(), k);
    } else {
        assert(names.subrange(0, k) =~= names);
        assert(outcomes.subrange(0, k) =~= outcomes);
    }
}

/// A refresh cycle in which the set of addresses of a name changes notifies
/// every watcher registered on that name when it was refreshed. (Each of
/// them is returned once by `refresh_cycle`, however many of its names
/// changed.)
pub proof fn lemma_changed_refresh_notifies_all(
    m: DnsModel,
    names: Seq<Seq<char>>,
    outcomes: Seq<Option<LookupModel>>,
    k: int,
)
    requires
        names.len() == outcomes.len(),
        0 <= k < names.len(),
        outcomes[k] is Some,
        m.refresh_cycle(names.subrange(0, k), outcomes.subrange(0, k)).changes(
            names[k],
            outcomes[k]->Some_0,
        ),
    ensures
        forall|w: usize|
            m.refresh_cycle(names.subrange(0, k), outcomes.subrange(0, k)).cache[names[k]].watchers.contains(w)
                ==> m.cycle_notifies(names, outcomes).contains(w),
{
    let ns = names.subrange(0, k + 1);
    let os = outcomes.subrange(0, k + 1);
    assert(ns.drop_last() =~= names.subrange(0, k));
    assert(os.drop_last() =~= outcomes.subrange(0, k));
    lemma_cycle_notifies_grows(m, names, outcomes, k + 1);
}

/// What one refresh step keeps: the watchers, the names, raised flags and
/// recorded names; only the refreshed name's entry changes, and only that
/// name is recorded.
proof fn lemma_step_keeps(m: DnsModel, n: Seq<char>, o: Option<LookupModel>)
    ensures
        m.refresh_step(n, o).pending.len() == m.pending.len(),
        m.refresh_step(n, o).updated.len() == m.updated.len(),
        m.refresh_step(n, o).cache.dom() == m.cache.dom(),
        forall|key: Seq<char>| #[trigger]
            m.cache.contains_key(key) ==> m.refresh_step(n, o).cache[key].watchers
                == m.cache[key].watchers,
        forall|key: Seq<char>| #[trigger]
            m.cache.contains_key(key) && key != n ==> m.refresh_step(n, o).cache[key]
                == m.cache[key],
        forall|w: int| 0 <= w < m.pending.len() && #[trigger] m.pending[w] ==> m.refresh_step(n, o).pending[w],
        forall|w: int, x: Seq<char>|
            0 <= w < m.updated.len() && #[trigger] m.updated[w].contains(x) ==> m.refresh_step(
                n,
                o,
            ).updated[w].contains(x),
        forall|w: int, x: Seq<char>|
            0 <= w < m.updated.len() && x != n && #[trigger] m.refresh_step(n, o).updated[w].contains(x)
                ==> m.updated[w].contains(x),
{
    let r = m.refresh_step(n, o);
    if o is Some && m.cache.contains_key(n) {
        assert(r.cache.dom() =~= m.cache.dom());
    }
}

/// What the rest of a cycle keeps of the state after its first `j` steps.
proof fn lemma_cycle_keeps(
    m: DnsModel,
    names: Seq<Seq<char>>,
    outcomes: Seq<Option<LookupModel>>,
    j: int,
)
    requires
        names.len() == outcomes.len(),
        0 <= j <= names.len(),
    ensures
        ({
            let p = m.refresh_cycle(names.subrange(0, j), outcomes.subrange(0, j));
            let f = m.refresh_cycle(names, outcomes);
            &&& f.pending.len() == p.pending.len()
            &&& f.updated.len() == p.updated.len()
            &&& f.cache.dom() == p.cache.dom()
            &&& forall|key: Seq<char>| #[trigger]
                p.cache.contains_key(key) ==> f.cache[key].watchers == p.cache[key].watchers
            &&& forall|key: Seq<char>| #[trigger]
                p.cache.contains_key(key) && !names.subrange(j, names.len() as int).contains(key)
                    ==> f.cache[key] == p.cache[key]
            &&& forall|w: int| 0 <= w < p.pending.len() && #[trigger] p.pending[w] ==> f.pending[w]
            &&& forall|w: int, x: Seq<char>|
                0 <= w < p.updated.len() && #[trigger] p.updated[w].contains(x) ==> f.updated[w].contains(x)
            &&& forall|w: int, x: Seq<char>|
                0 <= w < p.updated.len() && !names.subrange(j, names.len() as int).contains(x)
                    && #[trigger] f.updated[w].contains(x) ==> p.updated[w].contains(x)
        }),
    decreases names.len(),
{
    if j == names.len() {
        assert(names.subrange(0, j) =~= names);
        assert(outcomes.subrange(0, j) =~= outcomes);
    } else {
        let ns = names.drop_last();
        let os = outcomes.drop_last();
        assert(ns.subrange(0, j) =~= names.subrange(0, j));
        assert(os.subrange(0, j) =~= outcomes.subrange(0, j));
        lemma_cycle_keeps(m, ns, os, j);
        let q = m.refresh_cycle(ns, os);
        let last = names.last();
        lemma_step_keeps(q, last, outcomes.last());
        assert(names.subrange(j, names.len() as int).contains(last)) by {
            assert(names.subrange(j, names.len() as int)[names.len() - 1 - j] == last);
        }
        assert forall|x: Seq<char>|
            ns.subrange(j, ns.len() as int).contains(x) implies names.subrange(
            j,
            names.len() as int,
        ).contains(x) by {
            let t = choose|t: int| 0 <= t < ns.len() - j && ns.subrange(j, ns.len() as int)[t] == x;
            assert(names.subrange(j, names.len() as int)[t] == x);
        }
    }
}

/// A refresh cycle in which the set of addresses of a name changes raises
/// the flag of every watcher registered on that name and records the name
/// against it; and each of them is among the watchers the cycle notifies.
pub proof fn lemma_changed_in_cycle(
    m: DnsModel,
    names: Seq<Seq<char>>,
    outcomes: Seq<Option<LookupModel>>,
    k: int,
)
    requires
        m.consistent(),
        names.len() == outcomes.len(),
        0 <= k < names.len(),
        outcomes[k] is Some,
        m.refresh_cycle(names.subrange(0, k), outcomes.subrange(0, k)).changes(
            names[k],
            outcomes[k]->Some_0,
        ),
    ensures
        forall|w: usize| #[trigger]
            m.cache[names[k]].watchers.contains(w) ==> {
                &&& m.cycle_notifies(names, outcomes).contains(w)
                &&& m.refresh_cycle(names, outcomes).pending[w as int]
                &&& m.refresh_cycle(names, outcomes).updated[w as int].contains(names[k])
            },
{
    let n = names[k];
    let pk = m.refresh_cycle(names.subrange(0, k), outcomes.subrange(0, k));
    lemma_cycle_keeps(m, names.subrange(0, k), outcomes.subrange(0, k), 0);
    assert(names.subrange(0, k).subrange(0, 0) =~= Seq::<Seq<char>>::empty());
    assert(outcomes.subrange(0, k).subrange(0, 0) =~= Seq::<Option<LookupModel>>::empty());
    assert(m.cache.contains_key(n));
    assert(pk.cache[n].watchers == m.cache[n].watchers);
    lemma_changed_refresh_notifies_all(m, names, outcomes, k);
    let ns = names.subrange(0, k + 1);
    let os = outcomes.subrange(0, k + 1);
    assert(ns.drop_last() =~= names.subrange(0, k));
    assert(os.drop_last() =~= outcomes.subrange(0, k));
    let pk1 = m.refresh_cycle(ns, os);
    assert(pk1 == pk.refresh_step(n, outcomes[k]));
    lemma_cycle_keeps(m, names, outcomes, k + 1);
    assert forall|w: usize| #[trigger] m.cache[names[k]].watchers.contains(w) implies {
        &&& m.refresh_cycle(names, outcomes).pending[w as int]
        &&& m.refresh_cycle(names, outcomes).updated[w as int].contains(names[k])
    } by {
        assert(w < m.pending.len());
        assert(pk1.pending[w as int]);
        assert(pk1.updated[w as int].contains(n));
    }
}

/// A refresh cycle in which the set of addresses of a name, named once in
/// the cycle, does not change replaces its entry with the new addresses and
/// validity and the same watchers, and records that name against no
/// watcher.
pub proof fn lemma_unchanged_in_cycle(
    m: DnsModel,
    names: Seq<Seq<char>>,
    outcomes: Seq<Option<LookupModel>>,
    k: int,
)
    requires
        names.len() == outcomes.len(),
        names.no_duplicates(),
        0 <= k < names.len(),
        outcomes[k] is Some,
        m.cache.contains_key(names[k]),
        outcomes[k]->Some_0.addresses.to_set() == m.cache[names[k]].addresses.to_set(),
    ensures
        m.refresh_cycle(names, outcomes).cache[names[k]] == (EntryModel {
            addresses: outcomes[k]->Some_0.addresses,
            valid_until: outcomes[k]->Some_0.valid_until,
            ..m.cache[names[k]]
        }),
        forall|w: int|
            0 <= w < m.updated.len() ==> (#[trigger] m.refresh_cycle(names, outcomes).updated[w]).contains(
                names[k],
            ) == m.updated[w].contains(names[k]),
{
    let n = names[k];
    let f = outcomes[k]->Some_0;
    lemma_cycle_keeps(m, names.subrange(0, k), outcomes.subrange(0, k), 0);
    assert(names.subrange(0, k).subrange(0, 0) =~= Seq::<Seq<char>>::empty());
    assert(outcomes.subrange(0, k).subrange(0, 0) =~= Seq::<Option<LookupModel>>::empty());
    assert(!names.subrange(0, k).subrange(0, k).contains(n)) by {
        if names.subrange(0, k).subrange(0, k).contains(n) {
            let t = choose|t: int| 0 <= t < k && names.subrange(0, k).subrange(0, k)[t] == n;
            assert(names[t] == names[k]);
        }
    }
    assert(names.subrange(0, k).subrange(0, k) =~= names.subrange(0, k));
    let pk = m.refresh_cycle(names.subrange(0, k), outcomes.subrange(0, k));
    assert(pk.cache[n] == m.cache[n]);
    lemma_unchanged_refresh(pk, n, f);
    let ns = names.subrange(0, k + 1);
    let os = outcomes.subrange(0, k + 1);
    assert(ns.drop_last() =~= names.subrange(0, k));
    assert(os.drop_last() =~= outcomes.subrange(0, k));
    let pk1 = m.refresh_cycle(ns, os);
    assert(pk1 == pk.refresh_step(n, outcomes[k]));
    lemma_cycle_keeps(m, names, outcomes, k + 1);
    let tail = names.subrange(k + 1, names.len() as int);
    assert(!tail.contains(n)) by {
        if tail.contains(n) {
            let t = choose|t: int| 0 <= t < tail.len() && tail[t] == n;
            assert(names[k + 1 + t] == names[k]);
        }
    }
    assert(pk1.cache.contains_key(n));
    assert forall|w: int| 0 <= w < m.updated.len() implies (#[trigger] m.refresh_cycle(
        names,
        outcomes,
    ).updated[w]).contains(n) == m.updated[w].contains(n) by {
        assert(pk1.updated[w] == pk.updated[w]);
        if pk.updated[w].contains(n) {
            assert(m.updated[w].contains(n));
        }
    }
}

/// Cadence floor: the next cycle starts no sooner than the floor after the
/// last one, whatever the earliest expiry; and when every entry has more
/// than the floor of validity left, no name is due.
pub proof fn lemma_refresh_floor(m: DnsModel, now: u64, next_expiry: Option<u64>)
    ensures
        refresh_time_spec(now, next_expiry) >= now + MIN_TIME_BEFORE_REFRESH || refresh_time_spec(
            now,
            next_expiry,
        ) == u64::MAX,
        (forall|n: Seq<char>| #[trigger]
            m.cache.contains_key(n) ==> !is_due(m.cache[n].valid_until, now)) ==> due_set(m, now)
            == Set::<Seq<char>>::empty(),
{
    if forall|n: Seq<char>| #[trigger] m.cache.contains_key(n) ==> !is_due(m.cache[n].valid_until, now) {
        assert(due_set(m, now) =~= Set::<Seq<char>>::empty());
    }
}

/// Clearing the names of a watcher twice in a row is the same as clearing
/// them once: the second call finds no name and changes nothing.
pub proof fn lemma_clear_idempotent(m: DnsModel, w: WatcherModel)
    ensures
        m.unwatch_all(w.watched, w.id).unwatch_all(Set::empty(), w.id) == m.unwatch_all(
            w.watched,
            w.id,
        ),
{
    lemma_unwatch_none(m.unwatch_all(w.watched, w.id), w.id);
}

} // verus!
