//! The unit registry and the dependency resolver: a dependency graph over the
//! loaded units and the activation order that Kahn's algorithm gives it.

use vstd::prelude::*;
use crate::types::{Unit, clone_strings};
use crate::text::str_eq;

verus! {

/// The map that a sequence of distinct keys and a sequence of values describe.
pub open spec fn keyed<V>(keys: Seq<Seq<char>>, vals: Seq<V>) -> Map<Seq<char>, V> {
    Map::new(|k: Seq<char>| keys.contains(k), |k: Seq<char>| vals[keys.index_of(k)])
}

pub proof fn lemma_keyed_at<V>(keys: Seq<Seq<char>>, vals: Seq<V>, i: int)
    requires
        keys.no_duplicates(),
        0 <= i < keys.len(),
    ensures
        keyed(keys, vals).dom().contains(keys[i]),
        keyed(keys, vals)[keys[i]] == vals[i],
{
    assert(keys.contains(keys[i]));
    let j = keys.index_of(keys[i]);
    assert(keys[j] == keys[i]);
}

/// Every name that some value of `deps` lists.
pub open spec fn listed_names(deps: Seq<Seq<Seq<char>>>) -> Set<Seq<char>> {
    Set::new(|x: Seq<char>| exists|i: int, j: int| 0 <= i < deps.len() && 0 <= j < deps[i].len() && deps[i][j] == x)
}

/// Registry holding all loaded units, keyed by unit name.
pub struct UnitRegistry {
    keys: Vec<String>,
    units: Vec<Unit>,
}

impl UnitRegistry {
    #[verifier::type_invariant]
    closed spec fn well_formed(&self) -> bool {
        &&& self.keys.len() == self.units.len()
        &&& self.keys.deep_view().no_duplicates()
        &&& forall|i: int| 0 <= i < self.units.len() ==> #[trigger] self.units[i].dep_names().len() <= usize::MAX
    }

    /// The keys, in the order in which they were first inserted.
    pub closed spec fn key_seq(&self) -> Seq<Seq<char>> {
        self.keys.deep_view()
    }

    /// The units, in the order of `key_seq`.
    pub closed spec fn unit_seq(&self) -> Seq<Unit> {
        self.units@
    }

    /// The dependency lists of the units, in the order of `key_seq`.
    pub closed spec fn dep_seq(&self) -> Seq<Seq<Seq<char>>> {
        self.units@.map_values(|u: Unit| u.dep_names())
    }

    /// The conflict lists of the units, in the order of `key_seq`.
    pub closed spec fn conflict_seq(&self) -> Seq<Seq<Seq<char>>> {
        self.units@.map_values(|u: Unit| u.unit.conflicts.deep_view())
    }

    pub fn new() -> (r: UnitRegistry)
        ensures
            r@ == Map::<Seq<char>, Unit>::empty(),
    {
        let r = UnitRegistry { keys: Vec::new(), units: Vec::new() };
        assert(r@ =~= Map::<Seq<char>, Unit>::empty());
        r
    }

    pub fn len(&self) -> (r: usize)
        ensures
            r == self@.dom().len(),
            r == self.key_seq().len(),
    {
        proof {
            use_type_invariant(self);
            self.keys.deep_view().unique_seq_to_set();
            assert(self@.dom() =~= self.keys.deep_view().to_set());
        }
        self.keys.len()
    }

    /// Position of `key` among the keys.
    fn find(&self, key: &str) -> (r: Option<usize>)
        ensures
            match r {
                Some(i) => i < self.keys.len() && self.key_seq()[i as int] == key@,
                None => !self.key_seq().contains(key@),
            },
    {
        proof {
            use_type_invariant(self);
        }
        let mut i: usize = 0;
        while i < self.keys.len()
            invariant
                i <= self.keys.len(),
                forall|j: int| 0 <= j < i ==> self.key_seq()[j] != key@,
            decreases self.keys.len() - i,
        {
            if str_eq(self.keys[i].as_str(), key) {
                return Some(i);
            }
            i = i + 1;
        }
        None
    }

    /// The key at position `i` of `key_seq`.
    pub fn key_at(&self, i: usize) -> (r: &String)
        requires
            i < self.key_seq().len(),
        ensures
            r@ == self.key_seq()[i as int],
            self@.dom().contains(r@),
    {
        proof {
            use_type_invariant(self);
            assert(self.key_seq().contains(self.key_seq()[i as int]));
        }
        &self.keys[i]
    }

    /// The unit at position `i` of `key_seq`.
    pub fn unit_at(&self, i: usize) -> (r: &Unit)
        requires
            i < self.key_seq().len(),
        ensures
            *r == self@[self.key_seq()[i as int]],
    {
        proof {
            use_type_invariant(self);
            lemma_keyed_at(self.key_seq(), self.unit_seq(), i as int);
        }
        &self.units[i]
    }

    pub fn contains_key(&self, key: &str) -> (r: bool)
        ensures
            r == self@.dom().contains(key@),
    {
        self.find(key).is_some()
    }

    pub fn get(&self, key: &str) -> (r: Option<&Unit>)
        ensures
            match r {
                Some(u) => self@.dom().contains(key@) && *u == self@[key@],
                None => !self@.dom().contains(key@),
            },
    {
        proof {
            use_type_invariant(self);
        }
        match self.find(key) {
            Some(i) => {
                proof {
                    lemma_keyed_at(self.key_seq(), self.unit_seq(), i as int);
                }
                Some(&self.units[i])
            },
            None => None,
        }
    }

    /// Inserts a unit under `key`, replacing the unit that the key held.
    pub fn insert(&mut self, key: String, unit: Unit)
        requires
            unit.dep_names().len() <= usize::MAX,
        ensures
            final(self)@ == old(self)@.insert(key@, unit),
    {
        proof {
            use_type_invariant(&*self);
        }
        let ghost old_keys = self.key_seq();
        let ghost old_units = self.unit_seq();
        match self.find(key.as_str()) {
            Some(i) => {
                let mut taken = UnitRegistry { keys: Vec::new(), units: Vec::new() };
                std::mem::swap(self, &mut taken);
                let UnitRegistry { keys, mut units } = taken;
                units.set(i, unit);
                *self = UnitRegistry { keys, units };
                proof {
                    assert forall|k: Seq<char>| #[trigger] self@.dom().contains(k) implies self@[k]
                        == old(self)@.insert(key@, unit)[k] by {
                        let j = self.key_seq().index_of(k);
                        assert(self.key_seq()[j] == k);
                        lemma_keyed_at(old_keys, old_units, j);
                        lemma_keyed_at(self.key_seq(), self.unit_seq(), j);
                    }
                    assert(self@ =~= old(self)@.insert(key@, unit));
                }
            },
            None => {
                let ghost kv = key@;
                let mut taken = UnitRegistry { keys: Vec::new(), units: Vec::new() };
                std::mem::swap(self, &mut taken);
                let UnitRegistry { mut keys, mut units } = taken;
                proof {
                    assert(keys.deep_view() == old_keys);
                }
                keys.push(key);
                units.push(unit);
                proof {
                    assert(keys.deep_view() =~= old_keys.push(kv));
                }
                *self = UnitRegistry { keys, units };
                proof {
                    assert(self.key_seq() =~= old_keys.push(kv));
                    assert(self.unit_seq() =~= old_units.push(unit));
                    assert forall|k: Seq<char>| #[trigger] self@.dom().contains(k) implies self@[k]
                        == old(self)@.insert(kv, unit)[k] by {
                        let j = self.key_seq().index_of(k);
                        assert(self.key_seq()[j] == k);
                        lemma_keyed_at(self.key_seq(), self.unit_seq(), j);
                        if j < old_keys.len() {
                            lemma_keyed_at(old_keys, old_units, j);
                        }
                    }
                    assert forall|k: Seq<char>| old(self)@.insert(kv, unit).dom().contains(k)
                        implies #[trigger] self@.dom().contains(k) by {
                        if k != kv {
                            let j = old_keys.index_of(k);
                            assert(old_keys[j] == k);
                            assert(self.key_seq()[j] == k);
                        } else {
                            assert(self.key_seq()[old_keys.len() as int] == kv);
                        }
                    }
                    assert(self@ =~= old(self)@.insert(kv, unit));
                }
            },
        }
    }
}

impl View for UnitRegistry {
    type V = Map<Seq<char>, Unit>;

    open spec fn view(&self) -> Map<Seq<char>, Unit> {
        keyed(self.key_seq(), self.unit_seq())
    }
}


/// `name` once for each time `deps` lists `x`.
pub open spec fn occurrences(deps: Seq<Seq<char>>, x: Seq<char>, name: Seq<char>) -> Seq<Seq<char>>
    decreases deps.len(),
{
    if deps.len() == 0 {
        Seq::empty()
    } else {
        occurrences(deps.drop_last(), x, name) + if deps.last() == x {
            seq![name]
        } else {
            Seq::empty()
        }
    }
}

/// The units that depend on `x`: each key once for each time its unit lists `x`,
/// in the order of `keys`.
pub open spec fn dependents_in(keys: Seq<Seq<char>>, deps: Seq<Seq<Seq<char>>>, x: Seq<char>) -> Seq<
    Seq<char>,
>
    decreases keys.len(),
{
    if keys.len() == 0 {
        Seq::empty()
    } else {
        dependents_in(keys.drop_last(), deps.drop_last(), x) + occurrences(
            deps[keys.len() - 1],
            x,
            keys.last(),
        )
    }
}

proof fn lemma_occurrences_push(deps: Seq<Seq<char>>, d: Seq<char>, x: Seq<char>, name: Seq<char>)
    ensures
        occurrences(deps.push(d), x, name) == occurrences(deps, x, name) + if d == x {
            seq![name]
        } else {
            Seq::empty()
        },
{
    assert(deps.push(d).drop_last() =~= deps);
}

proof fn lemma_occurrences_absent(deps: Seq<Seq<char>>, x: Seq<char>, name: Seq<char>)
    requires
        !deps.contains(x),
    ensures
        occurrences(deps, x, name) == Seq::<Seq<char>>::empty(),
    decreases deps.len(),
{
    if deps.len() > 0 {
        assert(!deps.drop_last().contains(x)) by {
            if deps.drop_last().contains(x) {
                let j = choose|j: int| 0 <= j < deps.drop_last().len() && deps.drop_last()[j] == x;
                assert(deps[j] == x);
            }
        }
        lemma_occurrences_absent(deps.drop_last(), x, name);
        assert(deps[deps.len() - 1] == deps.last());
        assert(occurrences(deps, x, name) =~= Seq::<Seq<char>>::empty());
    }
}

proof fn lemma_dependents_absent(keys: Seq<Seq<char>>, deps: Seq<Seq<Seq<char>>>, x: Seq<char>)
    requires
        keys.len() == deps.len(),
        !listed_names(deps).contains(x),
    ensures
        dependents_in(keys, deps, x) == Seq::<Seq<char>>::empty(),
    decreases keys.len(),
{
    if keys.len() > 0 {
        let n = keys.len() - 1;
        assert(!listed_names(deps.drop_last()).contains(x)) by {
            if listed_names(deps.drop_last()).contains(x) {
                let dl = deps.drop_last();
                let (i, j) = choose|i: int, j: int|
                    0 <= i < dl.len() && 0 <= j < dl[i].len() && #[trigger] dl[i][j] == x;
                assert(deps[i][j] == x);
            }
        }
        lemma_dependents_absent(keys.drop_last(), deps.drop_last(), x);
        assert(!deps[n].contains(x)) by {
            if deps[n].contains(x) {
                let j = choose|j: int| 0 <= j < deps[n].len() && deps[n][j] == x;
                assert(listed_names(deps).contains(x));
            }
        }
        lemma_occurrences_absent(deps[n], x, keys.last());
        assert(dependents_in(keys, deps, x) =~= Seq::<Seq<char>>::empty());
    }
}

/// The dependency graph: for every unit name and every dependency name, the
/// units that must start after it.
pub struct DepGraph {
    keys: Vec<String>,
    lists: Vec<Vec<String>>,
}

impl DepGraph {
    #[verifier::type_invariant]
    closed spec fn well_formed(&self) -> bool {
        &&& self.keys.len() == self.lists.len()
        &&& self.keys.deep_view().no_duplicates()
    }

    pub fn len(&self) -> (r: usize)
        ensures
            r == self@.dom().len(),
    {
        proof {
            use_type_invariant(self);
            self.keys.deep_view().unique_seq_to_set();
            assert(self@.dom() =~= self.keys.deep_view().to_set());
        }
        self.keys.len()
    }

    /// The units that must start after `name`, if the graph knows `name`.
    pub fn get(&self, name: &str) -> (r: Option<&Vec<String>>)
        ensures
            match r {
                Some(l) => self@.dom().contains(name@) && l.deep_view() == self@[name@],
                None => !self@.dom().contains(name@),
            },
    {
        proof {
            use_type_invariant(self);
        }
        match find_key(&self.keys, name) {
            Some(i) => {
                proof {
                    lemma_keyed_at(self.keys.deep_view(), self.lists.deep_view(), i as int);
                }
                Some(&self.lists[i])
            },
            None => None,
        }
    }
}

impl View for DepGraph {
    type V = Map<Seq<char>, Seq<Seq<char>>>;

    closed spec fn view(&self) -> Map<Seq<char>, Seq<Seq<char>>> {
        keyed(self.keys.deep_view(), self.lists.deep_view())
    }
}

/// Position of `key` in `keys`.
fn find_key(keys: &Vec<String>, key: &str) -> (r: Option<usize>)
    ensures
        match r {
            Some(i) => i < keys.len() && keys.deep_view()[i as int] == key@,
            None => !keys.deep_view().contains(key@),
        },
{
    let mut i: usize = 0;
    while i < keys.len()
        invariant
            i <= keys.len(),
            forall|j: int| 0 <= j < i ==> keys.deep_view()[j] != key@,
        decreases keys.len() - i,
    {
        if str_eq(keys[i].as_str(), key) {
            return Some(i);
        }
        i = i + 1;
    }
    None
}

/// Appends `name` to the list that `dep` holds, creating the entry if needed.
fn add_dependent(keys: &mut Vec<String>, lists: &mut Vec<Vec<String>>, dep: &String, name: &String)
    requires
        old(keys).len() == old(lists).len(),
        old(keys).deep_view().no_duplicates(),
    ensures
        final(keys).len() == final(lists).len(),
        final(keys).deep_view().no_duplicates(),
        keyed(final(keys).deep_view(), final(lists).deep_view()) == keyed(
            old(keys).deep_view(),
            old(lists).deep_view(),
        ).insert(
            dep@,
            (if old(keys).deep_view().contains(dep@) {
                keyed(old(keys).deep_view(), old(lists).deep_view())[dep@]
            } else {
                Seq::empty()
            }).push(name@),
        ),
{
    let ghost ok = keys.deep_view();
    let ghost ol = lists.deep_view();
    let ghost m = keyed(ok, ol);
    match find_key(keys, dep.as_str()) {
        Some(i) => {
            let mut l = Vec::new();
            lists.set_and_swap(i, &mut l);
            l.push(name.clone());
            let ghost lv = l.deep_view();
            lists.set_and_swap(i, &mut l);
            proof {
                lemma_keyed_at(ok, ol, i as int);
                assert(lists.deep_view() =~= ol.update(i as int, lv));
                assert(lv =~= m[dep@].push(name@));
                let nm = keyed(keys.deep_view(), lists.deep_view());
                assert forall|k: Seq<char>| #[trigger] nm.dom().contains(k) implies nm[k] == m.insert(
                    dep@,
                    m[dep@].push(name@),
                )[k] by {
                    let j = ok.index_of(k);
                    assert(ok[j] == k);
                    lemma_keyed_at(ok, ol, j);
                    lemma_keyed_at(ok, lists.deep_view(), j);
                }
                assert(nm =~= m.insert(dep@, m[dep@].push(name@)));
            }
        },
        None => {
            keys.push(dep.clone());
            let mut l = Vec::new();
            l.push(name.clone());
            let ghost lv = l.deep_view();
            lists.push(l);
            proof {
                assert(keys.deep_view() =~= ok.push(dep@));
                assert(lists.deep_view() =~= ol.push(lv));
                assert(lv =~= Seq::<Seq<char>>::empty().push(name@));
                let nm = keyed(keys.deep_view(), lists.deep_view());
                let target = m.insert(dep@, Seq::<Seq<char>>::empty().push(name@));
                assert forall|k: Seq<char>| #[trigger] nm.dom().contains(k) implies nm[k] == target[k] by {
                    let j = keys.deep_view().index_of(k);
                    assert(keys.deep_view()[j] == k);
                    lemma_keyed_at(keys.deep_view(), lists.deep_view(), j);
                    if j < ok.len() {
                        lemma_keyed_at(ok, ol, j);
                    }
                }
                assert forall|k: Seq<char>| target.dom().contains(k) implies #[trigger] nm.dom().contains(k) by {
                    if k != dep@ {
                        let j = ok.index_of(k);
                        assert(ok[j] == k);
                        assert(keys.deep_view()[j] == k);
                    } else {
                        assert(keys.deep_view()[ok.len() as int] == dep@);
                    }
                }
                assert(nm =~= target);
            }
        },
    }
}


/// Gives `name` an entry of its own, empty if it had none.
fn ensure_key(keys: &mut Vec<String>, lists: &mut Vec<Vec<String>>, name: &String)
    requires
        old(keys).len() == old(lists).len(),
        old(keys).deep_view().no_duplicates(),
    ensures
        final(keys).len() == final(lists).len(),
        final(keys).deep_view().no_duplicates(),
        keyed(final(keys).deep_view(), final(lists).deep_view()) == if old(
            keys,
        ).deep_view().contains(name@) {
            keyed(old(keys).deep_view(), old(lists).deep_view())
        } else {
            keyed(old(keys).deep_view(), old(lists).deep_view()).insert(name@, Seq::empty())
        },
{
    let ghost ok = keys.deep_view();
    let ghost ol = lists.deep_view();
    let ghost m = keyed(ok, ol);
    if find_key(keys, name.as_str()).is_none() {
        keys.push(name.clone());
        let l: Vec<String> = Vec::new();
        let ghost lv = l.deep_view();
        lists.push(l);
        proof {
            assert(keys.deep_view() =~= ok.push(name@));
            assert(lists.deep_view() =~= ol.push(lv));
            assert(lv =~= Seq::<Seq<char>>::empty());
            let nm = keyed(keys.deep_view(), lists.deep_view());
            let target = m.insert(name@, Seq::<Seq<char>>::empty());
            assert forall|k: Seq<char>| #[trigger] nm.dom().contains(k) implies nm[k] == target[k] by {
                let j = keys.deep_view().index_of(k);
                assert(keys.deep_view()[j] == k);
                lemma_keyed_at(keys.deep_view(), lists.deep_view(), j);
                if j < ok.len() {
                    lemma_keyed_at(ok, ol, j);
                }
            }
            assert forall|k: Seq<char>| target.dom().contains(k) implies #[trigger] nm.dom().contains(k) by {
                if k != name@ {
                    let j = ok.index_of(k);
                    assert(ok[j] == k);
                    assert(keys.deep_view()[j] == k);
                } else {
                    assert(keys.deep_view()[ok.len() as int] == name@);
                }
            }
            assert(nm =~= target);
        }
    }
}

proof fn lemma_listed_take(deps: Seq<Seq<Seq<char>>>, i: int)
    requires
        0 <= i < deps.len(),
    ensures
        listed_names(deps.take(i + 1)) == listed_names(deps.take(i)).union(deps[i].to_set()),
{
    let t1 = deps.take(i + 1);
    let t0 = deps.take(i);
    let a = listed_names(t1);
    let b = listed_names(t0).union(deps[i].to_set());
    assert forall|x: Seq<char>| a.contains(x) implies b.contains(x) by {
        let (p, q) = choose|p: int, q: int|
            0 <= p < t1.len() && 0 <= q < t1[p].len() && #[trigger] t1[p][q] == x;
        if p < i {
            assert(t0[p][q] == x);
        } else {
            assert(deps[i][q] == x);
        }
    }
    assert forall|x: Seq<char>| b.contains(x) implies a.contains(x) by {
        if listed_names(t0).contains(x) {
            let (p, q) = choose|p: int, q: int|
                0 <= p < t0.len() && 0 <= q < t0[p].len() && #[trigger] t0[p][q] == x;
            assert(t1[p][q] == x);
        } else {
            let q = choose|q: int| 0 <= q < deps[i].len() && deps[i][q] == x;
            assert(t1[i][q] == x);
        }
    }
    assert(a =~= b);
}

/// The graph that lists, for every name of `names` and every name that their
/// lists hold, the names whose lists hold it (once per listing, in the order
/// of `names`).
fn successor_graph(names: &Vec<String>, dlists: &Vec<Vec<String>>) -> (g: DepGraph)
    requires
        names.len() == dlists.len(),
        names.deep_view().no_duplicates(),
    ensures
        g@.dom() == names.deep_view().to_set().union(listed_names(dlists.deep_view())),
        forall|x: Seq<char>| #[trigger] g@.dom().contains(x) ==> g@[x] == dependents_in(
            names.deep_view(),
            dlists.deep_view(),
            x,
        ),
{
    let ghost ks = names.deep_view();
    let ghost ds = dlists.deep_view();
    let mut keys: Vec<String> = Vec::new();
    let mut lists: Vec<Vec<String>> = Vec::new();
    let n = names.len();
    proof {
        assert(keyed(keys.deep_view(), lists.deep_view()).dom() =~= ks.take(0).to_set().union(
            listed_names(ds.take(0)),
        ));
    }
    for i in 0..n
        invariant
            n == ks.len(),
            ks == names.deep_view(),
            ds == dlists.deep_view(),
            ds.len() == ks.len(),
            keys.len() == lists.len(),
            keys.deep_view().no_duplicates(),
            keyed(keys.deep_view(), lists.deep_view()).dom() == ks.take(i as int).to_set().union(
                listed_names(ds.take(i as int)),
            ),
            forall|x: Seq<char>| #[trigger]
                keyed(keys.deep_view(), lists.deep_view()).dom().contains(x) ==> keyed(
                    keys.deep_view(),
                    lists.deep_view(),
                )[x] == dependents_in(ks.take(i as int), ds.take(i as int), x),
    {
        let name = &names[i];
        let list = &dlists[i];
        let ghost di = ds[i as int];
        let ghost base = ks.take(i as int).to_set().union(listed_names(ds.take(i as int)));
        proof {
            assert(di == list.deep_view());
            assert(name@ == ks[i as int]);
        }
        let total = list.len();
        proof {
            assert(di.take(0).to_set() =~= Set::<Seq<char>>::empty());
            assert(base.union(di.take(0).to_set()) =~= base);
            assert forall|x: Seq<char>| #[trigger]
                keyed(keys.deep_view(), lists.deep_view()).dom().contains(x) implies keyed(
                keys.deep_view(),
                lists.deep_view(),
            )[x] == dependents_in(ks.take(i as int), ds.take(i as int), x) + occurrences(
                di.take(0),
                x,
                ks[i as int],
            ) by {
                assert(occurrences(di.take(0), x, ks[i as int]) =~= Seq::<Seq<char>>::empty());
                assert(dependents_in(ks.take(i as int), ds.take(i as int), x) + Seq::<
                    Seq<char>,
                >::empty() =~= dependents_in(ks.take(i as int), ds.take(i as int), x));
            }
        }
        let mut j: usize = 0;
        while j < total
            invariant
                0 <= i < n,
                n == ks.len(),
                ds.len() == ks.len(),
                di == ds[i as int],
                di == list.deep_view(),
                name@ == ks[i as int],
                total == list.len(),
                j <= total,
                base == ks.take(i as int).to_set().union(listed_names(ds.take(i as int))),
                keys.len() == lists.len(),
                keys.deep_view().no_duplicates(),
                keyed(keys.deep_view(), lists.deep_view()).dom() == base.union(
                    di.take(j as int).to_set(),
                ),
                forall|x: Seq<char>| #[trigger]
                    keyed(keys.deep_view(), lists.deep_view()).dom().contains(x) ==> keyed(
                        keys.deep_view(),
                        lists.deep_view(),
                    )[x] == dependents_in(ks.take(i as int), ds.take(i as int), x) + occurrences(
                        di.take(j as int),
                        x,
                        ks[i as int],
                    ),
            decreases total - j,
        {
            let dep = &list[j];
            proof {
                assert(dep@ == di[j as int]);
            }
            let ghost m0 = keyed(keys.deep_view(), lists.deep_view());
            let ghost had = keys.deep_view().contains(dep@);
            add_dependent(&mut keys, &mut lists, dep, name);
            proof {
                let m1 = keyed(keys.deep_view(), lists.deep_view());
                let dv = dep@;
                assert(di.take(j + 1) =~= di.take(j as int).push(dv));
                di.take(j as int).lemma_push_to_set_commute(dv);
                assert(m1.dom() =~= base.union(di.take(j + 1).to_set()));
                assert forall|x: Seq<char>| #[trigger] m1.dom().contains(x) implies m1[x]
                    == dependents_in(ks.take(i as int), ds.take(i as int), x) + occurrences(
                    di.take(j + 1),
                    x,
                    ks[i as int],
                ) by {
                    lemma_occurrences_push(di.take(j as int), dv, x, ks[i as int]);
                    if x == dv {
                        let old_val = if had { m0[x] } else { Seq::<Seq<char>>::empty() };
                        if !had {
                            assert(!m0.dom().contains(x));
                            assert(!listed_names(ds.take(i as int)).contains(x));
                            assert(!di.take(j as int).contains(x));
                            lemma_dependents_absent(ks.take(i as int), ds.take(i as int), x);
                            lemma_occurrences_absent(di.take(j as int), x, ks[i as int]);
                            assert(old_val =~= dependents_in(ks.take(i as int), ds.take(i as int), x)
                                + occurrences(di.take(j as int), x, ks[i as int]));
                        } else {
                            assert(m0.dom().contains(x));
                        }
                        assert(m1[x] == old_val.push(name@));
                        assert(m1[x] =~= dependents_in(ks.take(i as int), ds.take(i as int), x)
                            + occurrences(di.take(j + 1), x, ks[i as int]));
                    } else {
                        assert(m0.dom().contains(x));
                        assert(m1[x] =~= dependents_in(ks.take(i as int), ds.take(i as int), x)
                            + occurrences(di.take(j + 1), x, ks[i as int]));
                    }
                }
            }
            j = j + 1;
        }
        let ghost m2 = keyed(keys.deep_view(), lists.deep_view());
        ensure_key(&mut keys, &mut lists, name);
        proof {
            let m3 = keyed(keys.deep_view(), lists.deep_view());
            assert(di.take(di.len() as int) =~= di);
            lemma_listed_take(ds, i as int);
            assert(ks.take(i + 1).drop_last() =~= ks.take(i as int));
            assert(ds.take(i + 1).drop_last() =~= ds.take(i as int));
            assert(ks.take(i + 1) =~= ks.take(i as int).push(ks[i as int]));
            ks.take(i as int).lemma_push_to_set_commute(ks[i as int]);
            assert(m3.dom() =~= ks.take(i + 1).to_set().union(listed_names(ds.take(i + 1))));
            assert forall|x: Seq<char>| #[trigger] m3.dom().contains(x) implies m3[x]
                == dependents_in(ks.take(i + 1), ds.take(i + 1), x) by {
                assert(dependents_in(ks.take(i + 1), ds.take(i + 1), x) == dependents_in(
                    ks.take(i as int),
                    ds.take(i as int),
                    x,
                ) + occurrences(di, x, ks[i as int]));
                if !m2.dom().contains(x) {
                    assert(x == name@);
                    assert(!listed_names(ds.take(i as int)).contains(x));
                    assert(!di.contains(x));
                    lemma_dependents_absent(ks.take(i as int), ds.take(i as int), x);
                    lemma_occurrences_absent(di, x, ks[i as int]);
                    assert(m3[x] =~= dependents_in(ks.take(i + 1), ds.take(i + 1), x));
                }
            }
        }
    }
    proof {
        assert(ks.take(n as int) =~= ks);
        assert(ds.take(n as int) =~= ds);
    }
    DepGraph { keys, lists }
}



/// Build a dependency graph from loaded units: every unit and every name that a
/// unit requires or wants is a node, and each node lists the units that must
/// start after it.
pub fn build_dep_graph(units: &UnitRegistry) -> (g: DepGraph)
    ensures
        g@.dom() == units@.dom().union(listed_names(units.dep_seq())),
        forall|x: Seq<char>| #[trigger] g@.dom().contains(x) ==> g@[x] == dependents_in(
            units.key_seq(),
            units.dep_seq(),
            x,
        ),
        forall|x: Seq<char>|
            #[trigger] g@.dom().contains(x) <==> (units@.dom().contains(x) || exists|n: Seq<char>|
                units@.dom().contains(n) && #[trigger] units@[n].dep_names().contains(x)),
        forall|x: Seq<char>, n: Seq<char>|
            g@.dom().contains(x) ==> #[trigger] count_of(g@[x], n) == if units@.dom().contains(n) {
                count_of(units@[n].dep_names(), x)
            } else {
                0
            },
        forall|x: Seq<char>, j: int|
            g@.dom().contains(x) && 0 <= j < g@[x].len() ==> units@.dom().contains(#[trigger] g@[x][j]),
{
    proof {
        use_type_invariant(units);
    }
    let ghost ks = units.key_seq();
    let ghost ds = units.dep_seq();
    let mut dl: Vec<Vec<String>> = Vec::new();
    for i in 0..units.units.len()
        invariant
            ks == units.key_seq(),
            ds == units.dep_seq(),
            ds.len() == units.units.len(),
            dl.deep_view() == ds.take(i as int),
    {
        let unit = &units.units[i];
        let mut l = clone_strings(&unit.unit.requires);
        let mut w = clone_strings(&unit.unit.wants);
        let ghost lv = l.deep_view();
        let ghost wv = w.deep_view();
        l.append(&mut w);
        proof {
            assert(l.deep_view() =~= lv + wv);
            assert(l.deep_view() == unit.dep_names());
            assert(ds[i as int] == unit.dep_names());
        }
        let ghost before = dl.deep_view();
        dl.push(l);
        proof {
            assert(dl.deep_view() =~= before.push(ds[i as int]));
            assert(ds.take(i + 1) =~= ds.take(i as int).push(ds[i as int]));
        }
    }
    proof {
        assert(ds.take(ds.len() as int) =~= ds);
        assert(units@.dom() =~= ks.to_set());
    }
    let g = successor_graph(&units.keys, &dl);
    proof {
        assert forall|u: int| 0 <= u < ks.len() implies #[trigger] ds[u] == units@[ks[u]].dep_names() by {
            lemma_keyed_at(ks, units.unit_seq(), u);
        }
        assert forall|x: Seq<char>| #[trigger] g@.dom().contains(x) <==> (units@.dom().contains(x) || exists|n: Seq<char>|
            units@.dom().contains(n) && #[trigger] units@[n].dep_names().contains(x)) by {
            if listed_names(ds).contains(x) {
                let (p, q) = choose|p: int, q: int| 0 <= p < ds.len() && 0 <= q < ds[p].len() && #[trigger] ds[p][q] == x;
                assert(ds[p] == units@[ks[p]].dep_names());
                assert(units@.dom().contains(ks[p]));
                assert(units@[ks[p]].dep_names().contains(x));
            }
            if exists|n: Seq<char>| units@.dom().contains(n) && #[trigger] units@[n].dep_names().contains(x) {
                let n = choose|n: Seq<char>| units@.dom().contains(n) && #[trigger] units@[n].dep_names().contains(x);
                assert(ks.to_set().contains(n));
                let u = choose|u: int| 0 <= u < ks.len() && ks[u] == n;
                assert(ds[u] == units@[ks[u]].dep_names());
                let q = choose|q: int| 0 <= q < ds[u].len() && ds[u][q] == x;
                assert(ds[u][q] == x);
                assert(listed_names(ds).contains(x));
            }
        }
        assert forall|x: Seq<char>, n: Seq<char>| g@.dom().contains(x) implies #[trigger] count_of(g@[x], n) == if units@.dom().contains(n) {
            count_of(units@[n].dep_names(), x)
        } else {
            0
        } by {
            if units@.dom().contains(n) {
                assert(ks.to_set().contains(n));
                let u = choose|u: int| 0 <= u < ks.len() && ks[u] == n;
                lemma_dependents_count(ks, ds, x, u);
                assert(ds[u] == units@[ks[u]].dep_names());
            } else {
                assert(!ks.contains(n));
                lemma_dependents_not_listed(ks, ds, x, n);
            }
        }
        assert forall|x: Seq<char>, j: int| g@.dom().contains(x) && 0 <= j < g@[x].len() implies units@.dom().contains(
            #[trigger] g@[x][j],
        ) by {
            lemma_dependents_are_keys(ks, ds, x, j);
        }
    }
    g
}

/// The dependency lists of a set of units, by unit name.
pub open spec fn dep_map(units: Map<Seq<char>, Unit>) -> Map<Seq<char>, Seq<Seq<char>>> {
    units.map_values(|u: Unit| u.dep_names())
}

/// Every name in `deps` belongs to `done`.
pub open spec fn deps_within(deps: Seq<Seq<char>>, done: Set<Seq<char>>) -> bool {
    forall|j: int| 0 <= j < deps.len() ==> done.contains(#[trigger] deps[j])
}

/// The units that can have started after `k` rounds of activation: a unit
/// starts in a round once every unit it requires or wants has started in an
/// earlier round.
pub open spec fn started_by(g: Map<Seq<char>, Seq<Seq<char>>>, k: nat) -> Set<Seq<char>>
    decreases k,
{
    if k == 0 {
        Set::empty()
    } else {
        let prev = started_by(g, (k - 1) as nat);
        Set::new(
            |n: Seq<char>| prev.contains(n) || (g.dom().contains(n) && deps_within(g[n], prev)),
        )
    }
}

/// The units that start in round `k` (counting from 0).
pub open spec fn startup_layer(g: Map<Seq<char>, Seq<Seq<char>>>, k: nat) -> Set<Seq<char>> {
    started_by(g, k + 1).difference(started_by(g, k))
}

/// The unit can start at all: it is reached after finitely many rounds.
pub open spec fn startable(g: Map<Seq<char>, Seq<Seq<char>>>, n: Seq<char>) -> bool {
    exists|k: nat| #[trigger] started_by(g, k).contains(n)
}

/// The names of `names` that are loaded.
pub open spec fn loaded_only(names: Seq<Seq<char>>, units: Map<Seq<char>, Unit>) -> Seq<Seq<char>> {
    names.filter(|x: Seq<char>| units.dom().contains(x))
}

/// The loaded units that declare that they start before `n`.
pub open spec fn before_units(units: Map<Seq<char>, Unit>, n: Seq<char>) -> Set<Seq<char>> {
    Set::new(|v: Seq<char>| units.dom().contains(v) && units[v].unit.before.deep_view().contains(n))
}

/// Whether unit `n` waits for `d` before it starts: `d` is a unit it
/// requires (a missing one blocks it), or a loaded unit that it wants, that
/// it is after, or that is before it. Wanted or after units that are not
/// loaded are passed over.
pub open spec fn waits_for(units: Map<Seq<char>, Unit>, n: Seq<char>, d: Seq<char>) -> bool {
    ||| units[n].unit.requires.deep_view().contains(d)
    ||| units.dom().contains(d) && (units[n].unit.wants.deep_view().contains(d) || units[n].unit.after.deep_view().contains(d)
        || units[d].unit.before.deep_view().contains(n))
}

/// The units that unit `n` waits for, as a list.
pub open spec fn order_deps(units: Map<Seq<char>, Unit>, n: Seq<char>) -> Seq<Seq<char>> {
    units[n].unit.requires.deep_view() + loaded_only(units[n].unit.wants.deep_view(), units) + loaded_only(
        units[n].unit.after.deep_view(),
        units,
    ) + before_units(units, n).to_seq()
}

/// What each unit waits for before it starts: the graph that orders startup.
pub open spec fn order_map(units: Map<Seq<char>, Unit>) -> Map<Seq<char>, Seq<Seq<char>>> {
    Map::new(|n: Seq<char>| units.dom().contains(n), |n: Seq<char>| order_deps(units, n))
}

proof fn lemma_loaded_only(names: Seq<Seq<char>>, units: Map<Seq<char>, Unit>, d: Seq<char>)
    ensures
        loaded_only(names, units).contains(d) <==> (names.contains(d) && units.dom().contains(d)),
{
    let pred = |x: Seq<char>| units.dom().contains(x);
    if loaded_only(names, units).contains(d) {
        let i = choose|i: int| 0 <= i < names.filter(pred).len() && names.filter(pred)[i] == d;
        names.lemma_filter_pred(pred, i);
        names.lemma_filter_contains_rev(pred, d);
    }
    if names.contains(d) && units.dom().contains(d) {
        let i = choose|i: int| 0 <= i < names.len() && names[i] == d;
        names.lemma_filter_contains(pred, i);
    }
}

/// With finitely many units, what `n`'s list holds is exactly what it waits
/// for.
pub proof fn lemma_order_deps_members(units: Map<Seq<char>, Unit>, n: Seq<char>, d: Seq<char>)
    requires
        units.dom().finite(),
    ensures
        order_deps(units, n).contains(d) <==> waits_for(units, n, d),
{
    let u = units[n].unit;
    let r = u.requires.deep_view();
    let w = loaded_only(u.wants.deep_view(), units);
    let a = loaded_only(u.after.deep_view(), units);
    let b = before_units(units, n);
    vstd::set_lib::lemma_set_subset_finite(units.dom(), b);
    b.lemma_to_seq_to_set_id();
    assert(b.to_seq().contains(d) <==> b.to_seq().to_set().contains(d));
    lemma_loaded_only(u.wants.deep_view(), units, d);
    lemma_loaded_only(u.after.deep_view(), units, d);
    let all = r + w + a + b.to_seq();
    if all.contains(d) {
        let i = choose|i: int| 0 <= i < all.len() && all[i] == d;
        if i < r.len() {
            assert(r[i] == d);
        } else if i < r.len() + w.len() {
            assert(w[i - r.len()] == d);
        } else if i < r.len() + w.len() + a.len() {
            assert(a[i - r.len() - w.len()] == d);
        } else {
            assert(b.to_seq()[i - r.len() - w.len() - a.len()] == d);
        }
    }
    if waits_for(units, n, d) {
        if r.contains(d) {
            let i = choose|i: int| 0 <= i < r.len() && r[i] == d;
            assert(all[i] == d);
        } else if w.contains(d) {
            let i = choose|i: int| 0 <= i < w.len() && w[i] == d;
            assert(all[r.len() + i] == d);
        } else if a.contains(d) {
            let i = choose|i: int| 0 <= i < a.len() && a[i] == d;
            assert(all[r.len() + w.len() + i] == d);
        } else {
            assert(b.contains(d));
            let i = choose|i: int| 0 <= i < b.to_seq().len() && b.to_seq()[i] == d;
            assert(all[r.len() + w.len() + a.len() + i] == d);
        }
    }
}

/// How many entries of `deps` are not yet in `done`.
pub open spec fn pending(deps: Seq<Seq<char>>, done: Set<Seq<char>>) -> nat
    decreases deps.len(),
{
    if deps.len() == 0 {
        0
    } else {
        pending(deps.drop_last(), done) + if done.contains(deps.last()) {
            0nat
        } else {
            1nat
        }
    }
}

/// How many times `v` occurs in `s`.
pub open spec fn count_of(s: Seq<Seq<char>>, v: Seq<char>) -> nat
    decreases s.len(),
{
    if s.len() == 0 {
        0
    } else {
        count_of(s.drop_last(), v) + if s.last() == v {
            1nat
        } else {
            0nat
        }
    }
}

proof fn lemma_pending_zero(deps: Seq<Seq<char>>, done: Set<Seq<char>>)
    ensures
        (pending(deps, done) == 0) == deps_within(deps, done),
    decreases deps.len(),
{
    if deps.len() > 0 {
        lemma_pending_zero(deps.drop_last(), done);
        if deps_within(deps, done) {
            assert forall|j: int| 0 <= j < deps.drop_last().len() implies done.contains(
                #[trigger] deps.drop_last()[j],
            ) by {
                assert(deps.drop_last()[j] == deps[j]);
            }
            assert(done.contains(deps[deps.len() - 1]));
        }
        if pending(deps, done) == 0 {
            assert forall|j: int| 0 <= j < deps.len() implies done.contains(#[trigger] deps[j]) by {
                if j < deps.len() - 1 {
                    assert(deps.drop_last()[j] == deps[j]);
                }
            }
        }
    }
}

proof fn lemma_count_concat(a: Seq<Seq<char>>, b: Seq<Seq<char>>, v: Seq<char>)
    ensures
        count_of(a + b, v) == count_of(a, v) + count_of(b, v),
    decreases b.len(),
{
    if b.len() == 0 {
        assert(a + b =~= a);
    } else {
        assert((a + b).drop_last() =~= a + b.drop_last());
        lemma_count_concat(a, b.drop_last(), v);
    }
}

proof fn lemma_pending_insert(deps: Seq<Seq<char>>, done: Set<Seq<char>>, y: Seq<char>)
    requires
        !done.contains(y),
    ensures
        count_of(deps, y) <= pending(deps, done),
        pending(deps, done.insert(y)) == pending(deps, done) - count_of(deps, y),
    decreases deps.len(),
{
    if deps.len() > 0 {
        lemma_pending_insert(deps.drop_last(), done, y);
    }
}

proof fn lemma_occurrences_count(ds: Seq<Seq<char>>, y: Seq<char>, nm: Seq<char>, v: Seq<char>)
    ensures
        count_of(occurrences(ds, y, nm), v) == if v == nm {
            count_of(ds, y)
        } else {
            0
        },
    decreases ds.len(),
{
    if ds.len() > 0 {
        lemma_occurrences_count(ds.drop_last(), y, nm, v);
        let tail = if ds.last() == y {
            seq![nm]
        } else {
            Seq::<Seq<char>>::empty()
        };
        lemma_count_concat(occurrences(ds.drop_last(), y, nm), tail, v);
        if ds.last() == y {
            let one = seq![nm];
            assert(one.len() == 1);
            assert(one.drop_last() =~= Seq::<Seq<char>>::empty());
            assert(count_of(one.drop_last(), v) == 0);
            assert(one.last() == nm);
            assert(count_of(one, v) == if v == nm { 1nat } else { 0nat });
        } else {
            assert(count_of(tail, v) == 0);
        }
    }
}

proof fn lemma_occurrences_members(ds: Seq<Seq<char>>, y: Seq<char>, nm: Seq<char>, s: int)
    requires
        0 <= s < occurrences(ds, y, nm).len(),
    ensures
        occurrences(ds, y, nm)[s] == nm,
    decreases ds.len(),
{
    if ds.len() > 0 {
        let front = occurrences(ds.drop_last(), y, nm);
        if s < front.len() {
            lemma_occurrences_members(ds.drop_last(), y, nm, s);
        }
    }
}

/// The dependents of `y` name each unit as often as that unit lists `y`.
proof fn lemma_dependents_count(keys: Seq<Seq<char>>, deps: Seq<Seq<Seq<char>>>, y: Seq<char>, u: int)
    requires
        keys.len() == deps.len(),
        keys.no_duplicates(),
        0 <= u < keys.len(),
    ensures
        count_of(dependents_in(keys, deps, y), keys[u]) == count_of(deps[u], y),
    decreases keys.len(),
{
    let n = keys.len() - 1;
    lemma_count_concat(
        dependents_in(keys.drop_last(), deps.drop_last(), y),
        occurrences(deps[n], y, keys.last()),
        keys[u],
    );
    lemma_occurrences_count(deps[n], y, keys.last(), keys[u]);
    if u < n {
        assert(keys.drop_last()[u] == keys[u]);
        assert(deps.drop_last()[u] == deps[u]);
        lemma_dependents_count(keys.drop_last(), deps.drop_last(), y, u);
        assert(keys[u] != keys.last());
    } else {
        lemma_dependents_not_listed(keys.drop_last(), deps.drop_last(), y, keys[u]);
    }
}

/// A name that is not a key has no place among the dependents.
proof fn lemma_dependents_not_listed(keys: Seq<Seq<char>>, deps: Seq<Seq<Seq<char>>>, y: Seq<char>, v: Seq<char>)
    requires
        keys.len() == deps.len(),
        !keys.contains(v),
    ensures
        count_of(dependents_in(keys, deps, y), v) == 0,
    decreases keys.len(),
{
    if keys.len() > 0 {
        let n = keys.len() - 1;
        assert(!keys.drop_last().contains(v)) by {
            if keys.drop_last().contains(v) {
                let j = choose|j: int| 0 <= j < keys.drop_last().len() && keys.drop_last()[j] == v;
                assert(keys[j] == v);
            }
        }
        lemma_dependents_not_listed(keys.drop_last(), deps.drop_last(), y, v);
        lemma_count_concat(
            dependents_in(keys.drop_last(), deps.drop_last(), y),
            occurrences(deps[n], y, keys.last()),
            v,
        );
        lemma_occurrences_count(deps[n], y, keys.last(), v);
        assert(keys[n] == keys.last());
    }
}

/// Every dependent is a key.
proof fn lemma_dependents_are_keys(keys: Seq<Seq<char>>, deps: Seq<Seq<Seq<char>>>, y: Seq<char>, s: int)
    requires
        keys.len() == deps.len(),
        0 <= s < dependents_in(keys, deps, y).len(),
    ensures
        keys.contains(dependents_in(keys, deps, y)[s]),
    decreases keys.len(),
{
    let n = keys.len() - 1;
    let front = dependents_in(keys.drop_last(), deps.drop_last(), y);
    if s < front.len() {
        lemma_dependents_are_keys(keys.drop_last(), deps.drop_last(), y, s);
        let j = choose|j: int| 0 <= j < keys.drop_last().len() && keys.drop_last()[j] == front[s];
        assert(keys[j] == front[s]);
    } else {
        lemma_occurrences_members(deps[n], y, keys.last(), s - front.len());
        assert(keys[n] == keys.last());
    }
}

proof fn lemma_started_sub_dom(g: Map<Seq<char>, Seq<Seq<char>>>, k: nat)
    ensures
        started_by(g, k).subset_of(g.dom()),
    decreases k,
{
    if k > 0 {
        lemma_started_sub_dom(g, (k - 1) as nat);
    }
}

proof fn lemma_started_mono(g: Map<Seq<char>, Seq<Seq<char>>>, k: nat, m: nat)
    requires
        k <= m,
    ensures
        started_by(g, k).subset_of(started_by(g, m)),
    decreases m - k,
{
    if k < m {
        lemma_started_mono(g, k, (m - 1) as nat);
    }
}

/// A started unit had all its dependencies started by then.
proof fn lemma_started_deps(g: Map<Seq<char>, Seq<Seq<char>>>, k: nat, n: Seq<char>)
    requires
        started_by(g, k).contains(n),
    ensures
        g.dom().contains(n),
        deps_within(g[n], started_by(g, k)),
    decreases k,
{
    let prev = started_by(g, (k - 1) as nat);
    lemma_started_mono(g, (k - 1) as nat, k);
    if prev.contains(n) {
        lemma_started_deps(g, (k - 1) as nat, n);
    }
    assert forall|j: int| 0 <= j < g[n].len() implies started_by(g, k).contains(#[trigger] g[n][j]) by {
        assert(prev.contains(g[n][j]));
    }
}

/// Once a round adds nothing, no later round does.
proof fn lemma_started_stable(g: Map<Seq<char>, Seq<Seq<char>>>, k: nat, m: nat)
    requires
        started_by(g, k + 1) == started_by(g, k),
        k <= m,
    ensures
        started_by(g, m) == started_by(g, k),
    decreases m - k,
{
    if k < m {
        lemma_started_stable(g, k, (m - 1) as nat);
        let prev = started_by(g, (m - 1) as nat);
        assert(started_by(g, m) =~= started_by(g, k + 1));
    }
}

/// When the rounds stop adding units, the units not started by then never start.
proof fn lemma_not_startable(g: Map<Seq<char>, Seq<Seq<char>>>, k: nat, n: Seq<char>)
    requires
        started_by(g, k + 1) == started_by(g, k),
        !started_by(g, k).contains(n),
    ensures
        !startable(g, n),
{
    assert forall|m: nat| !#[trigger] started_by(g, m).contains(n) by {
        if m <= k {
            lemma_started_mono(g, m, k);
        } else {
            lemma_started_stable(g, k, m);
        }
    }
}


/// How many entries of `s` are set.
pub open spec fn count_true(s: Seq<bool>) -> nat
    decreases s.len(),
{
    if s.len() == 0 {
        0
    } else {
        count_true(s.drop_last()) + if s.last() {
            1nat
        } else {
            0nat
        }
    }
}

proof fn lemma_count_true_bound(s: Seq<bool>)
    ensures
        count_true(s) <= s.len(),
        (count_true(s) == s.len()) == (forall|i: int| 0 <= i < s.len() ==> #[trigger] s[i]),
    decreases s.len(),
{
    if s.len() > 0 {
        lemma_count_true_bound(s.drop_last());
        if count_true(s) == s.len() {
            assert forall|i: int| 0 <= i < s.len() implies #[trigger] s[i] by {
                if i < s.len() - 1 {
                    assert(s.drop_last()[i] == s[i]);
                }
            }
        }
        if forall|i: int| 0 <= i < s.len() ==> #[trigger] s[i] {
            assert forall|i: int| 0 <= i < s.drop_last().len() implies #[trigger] s.drop_last()[i] by {
                assert(s[i]);
            }
            assert(s[s.len() - 1]);
        }
    }
}

proof fn lemma_count_true_set(s: Seq<bool>, i: int)
    requires
        0 <= i < s.len(),
        !s[i],
    ensures
        count_true(s.update(i, true)) == count_true(s) + 1,
    decreases s.len(),
{
    let t = s.update(i, true);
    if i == s.len() - 1 {
        assert(t.drop_last() =~= s.drop_last());
    } else {
        assert(t.drop_last() =~= s.drop_last().update(i, true));
        lemma_count_true_set(s.drop_last(), i);
    }
}

proof fn lemma_pending_empty(deps: Seq<Seq<char>>)
    ensures
        pending(deps, Set::empty()) == deps.len(),
    decreases deps.len(),
{
    if deps.len() > 0 {
        lemma_pending_empty(deps.drop_last());
    }
}

proof fn lemma_count_contains(s: Seq<Seq<char>>, v: Seq<char>)
    ensures
        (count_of(s, v) > 0) == s.contains(v),
    decreases s.len(),
{
    if s.len() > 0 {
        lemma_count_contains(s.drop_last(), v);
        if s.contains(v) && s.last() != v {
            let i = choose|i: int| 0 <= i < s.len() && s[i] == v;
            assert(s.drop_last()[i] == v);
        }
        if s.drop_last().contains(v) {
            let i = choose|i: int| 0 <= i < s.drop_last().len() && s.drop_last()[i] == v;
            assert(s[i] == v);
        }
    }
}

/// The `before` lists of the units, in the order of `key_seq`.
spec fn before_seq(units: &UnitRegistry) -> Seq<Seq<Seq<char>>> {
    units.units@.map_values(|u: Unit| u.unit.before.deep_view())
}

/// Appends to `l` the names of `names` that are loaded in `units`.
fn push_loaded(l: &mut Vec<String>, names: &Vec<String>, units: &UnitRegistry)
    ensures
        final(l).deep_view() == old(l).deep_view() + loaded_only(names.deep_view(), units@),
{
    let ghost start = l.deep_view();
    let ghost nv = names.deep_view();
    let ghost pred = |x: Seq<char>| units@.dom().contains(x);
    proof {
        assert(nv.take(0).filter(pred) =~= Seq::<Seq<char>>::empty()) by {
            reveal(Seq::filter);
        }
        assert(l.deep_view() =~= start + nv.take(0).filter(pred));
    }
    for j in 0..names.len()
        invariant
            nv == names.deep_view(),
            pred == (|x: Seq<char>| units@.dom().contains(x)),
            l.deep_view() == start + nv.take(j as int).filter(pred),
    {
        let ghost before = l.deep_view();
        proof {
            nv.take(j as int).lemma_filter_push(nv[j as int], pred);
            assert(nv.take(j + 1) =~= nv.take(j as int).push(nv[j as int]));
        }
        if units.contains_key(names[j].as_str()) {
            l.push(names[j].clone());
            proof {
                assert(l.deep_view() =~= before.push(nv[j as int]));
            }
        }
    }
    proof {
        assert(nv.take(nv.len() as int) =~= nv);
    }
}

/// For each unit, in the order of `key_seq`, the units it waits for.
fn order_lists(units: &UnitRegistry) -> (r: Vec<Vec<String>>)
    ensures
        r.len() == units.key_seq().len(),
        forall|u: int, d: Seq<char>|
            0 <= u < r.len() ==> (#[trigger] r.deep_view()[u].contains(d) <==> waits_for(
                units@,
                units.key_seq()[u],
                d,
            )),
{
    proof {
        use_type_invariant(units);
    }
    let ghost ks = units.key_seq();
    let ghost bs = before_seq(units);
    let n = units.units.len();
    let mut bl: Vec<Vec<String>> = Vec::new();
    for i in 0..n
        invariant
            n == units.units.len(),
            bs == before_seq(units),
            bl.deep_view() == bs.take(i as int),
    {
        let b = clone_strings(&units.units[i].unit.before);
        let ghost prev = bl.deep_view();
        bl.push(b);
        proof {
            assert(bl.deep_view() =~= prev.push(bs[i as int]));
            assert(bs.take(i + 1) =~= bs.take(i as int).push(bs[i as int]));
        }
    }
    proof {
        assert(bs.take(n as int) =~= bs);
    }
    let bg = successor_graph(&units.keys, &bl);
    let mut out: Vec<Vec<String>> = Vec::new();
    for u in 0..n
        invariant
            n == units.units.len(),
            n == ks.len(),
            ks == units.key_seq(),
            ks.no_duplicates(),
            bs == before_seq(units),
            bs.len() == n,
            units@.dom() == ks.to_set(),
            bg@.dom() == ks.to_set().union(listed_names(bs)),
            forall|x: Seq<char>| #[trigger] bg@.dom().contains(x) ==> bg@[x] == dependents_in(ks, bs, x),
            out.len() == u,
            forall|v: int, d: Seq<char>|
                0 <= v < u ==> (#[trigger] out.deep_view()[v].contains(d) <==> waits_for(units@, ks[v], d)),
    {
        let unit = &units.units[u];
        let ghost kn = ks[u as int];
        proof {
            lemma_keyed_at(ks, units.unit_seq(), u as int);
            assert(units@[kn] == *unit);
        }
        let mut l = clone_strings(&unit.unit.requires);
        push_loaded(&mut l, &unit.unit.wants, units);
        push_loaded(&mut l, &unit.unit.after, units);
        let ghost head = l.deep_view();
        let key = &units.keys[u];
        proof {
            assert(key@ == kn);
            assert(bg@.dom().contains(kn));
        }
        let ghost dep = dependents_in(ks, bs, kn);
        match bg.get(key.as_str()) {
            Some(pl) => {
                let mut extra = clone_strings(pl);
                l.append(&mut extra);
            },
            None => {},
        }
        proof {
            assert(l.deep_view() =~= head + dep);
            assert forall|d: Seq<char>| #[trigger] l.deep_view().contains(d) <==> waits_for(units@, kn, d) by {
                let r = unit.unit.requires.deep_view();
                let w = loaded_only(unit.unit.wants.deep_view(), units@);
                let a = loaded_only(unit.unit.after.deep_view(), units@);
                assert(head =~= r + w + a);
                lemma_loaded_only(unit.unit.wants.deep_view(), units@, d);
                lemma_loaded_only(unit.unit.after.deep_view(), units@, d);
                // what the before graph lists for `kn`
                let in_dep = dep.contains(d);
                let by_before = units@.dom().contains(d) && units@[d].unit.before.deep_view().contains(kn);
                assert(in_dep == by_before) by {
                    lemma_count_contains(dep, d);
                    if ks.contains(d) {
                        let i = choose|i: int| 0 <= i < ks.len() && ks[i] == d;
                        lemma_dependents_count(ks, bs, kn, i);
                        lemma_count_contains(bs[i], kn);
                        lemma_keyed_at(ks, units.unit_seq(), i);
                        assert(bs[i] == units.unit_seq()[i].unit.before.deep_view());
                    } else {
                        lemma_dependents_not_listed(ks, bs, kn, d);
                    }
                }
                let all = head + dep;
                if all.contains(d) {
                    let i = choose|i: int| 0 <= i < all.len() && all[i] == d;
                    if i < r.len() {
                        assert(r[i] == d);
                    } else if i < r.len() + w.len() {
                        assert(w[i - r.len()] == d);
                    } else if i < head.len() {
                        assert(a[i - r.len() - w.len()] == d);
                    } else {
                        assert(dep[i - head.len()] == d);
                    }
                }
                if waits_for(units@, kn, d) {
                    if r.contains(d) {
                        let i = choose|i: int| 0 <= i < r.len() && r[i] == d;
                        assert(all[i] == d);
                    } else if w.contains(d) {
                        let i = choose|i: int| 0 <= i < w.len() && w[i] == d;
                        assert(all[r.len() + i] == d);
                    } else if a.contains(d) {
                        let i = choose|i: int| 0 <= i < a.len() && a[i] == d;
                        assert(all[r.len() + w.len() + i] == d);
                    } else {
                        let i = choose|i: int| 0 <= i < dep.len() && dep[i] == d;
                        assert(all[head.len() + i] == d);
                    }
                }
            }
        }
        let ghost prev = out.deep_view();
        out.push(l);
        proof {
            assert(out.deep_view() =~= prev.push(l.deep_view()));
        }
    }
    out
}

/// What the activation order needs to know of the registry and its graph.
spec fn kahn_context(
    units: &UnitRegistry,
    graph: &DepGraph,
    g: Map<Seq<char>, Seq<Seq<char>>>,
    ks: Seq<Seq<char>>,
    ds: Seq<Seq<Seq<char>>>,
) -> bool {
    &&& ks == units.key_seq()
    &&& ks.len() == ds.len()
    &&& ks.len() == units.units.len()
    &&& ks.no_duplicates()
    &&& g == order_map(units@)
    &&& g.dom() == ks.to_set()
    &&& forall|u: int, d: Seq<char>|
        #![trigger ds[u].contains(d)]
        #![trigger g[ks[u]].contains(d)]
        0 <= u < ks.len() ==> (ds[u].contains(d) <==> g[ks[u]].contains(d))
    &&& forall|x: Seq<char>| #[trigger] graph@.dom().contains(x) ==> graph@[x] == dependents_in(ks, ds, x)
    &&& forall|u: int| 0 <= u < ks.len() ==> #[trigger] graph@.dom().contains(ks[u])
}

proof fn lemma_within_same_members(a: Seq<Seq<char>>, b: Seq<Seq<char>>, done: Set<Seq<char>>)
    requires
        forall|d: Seq<char>| #[trigger] a.contains(d) <==> b.contains(d),
    ensures
        deps_within(a, done) == deps_within(b, done),
{
    if deps_within(a, done) {
        assert forall|j: int| 0 <= j < b.len() implies done.contains(#[trigger] b[j]) by {
            assert(b.contains(b[j]));
            assert(a.contains(b[j]));
            let i = choose|i: int| 0 <= i < a.len() && a[i] == b[j];
            assert(done.contains(a[i]));
        }
    }
    if deps_within(b, done) {
        assert forall|j: int| 0 <= j < a.len() implies done.contains(#[trigger] a[j]) by {
            assert(a.contains(a[j]));
            assert(b.contains(a[j]));
            let i = choose|i: int| 0 <= i < b.len() && b[i] == a[j];
            assert(done.contains(b[i]));
        }
    }
}

/// A name that the graph's node list and the rounds agree on.
proof fn lemma_layer_member(
    g: Map<Seq<char>, Seq<Seq<char>>>,
    ks: Seq<Seq<char>>,
    ds: Seq<Seq<Seq<char>>>,
    k: nat,
    u: int,
)
    requires
        g.dom() == ks.to_set(),
        0 <= u < ks.len(),
        forall|d: Seq<char>| #[trigger] ds[u].contains(d) <==> g[ks[u]].contains(d),
    ensures
        startup_layer(g, k).contains(ks[u]) == (!started_by(g, k).contains(ks[u]) && pending(
            ds[u],
            started_by(g, k),
        ) == 0),
{
    lemma_pending_zero(ds[u], started_by(g, k));
    lemma_within_same_members(ds[u], g[ks[u]], started_by(g, k));
    assert(g.dom().contains(ks[u]));
}

#[derive(Debug)]
pub enum DepError {
    /// Units that can never start: they wait, directly or not, for a
    /// required unit that is missing or for themselves.
    Cycle(Vec<String>),
}

/// Resolve the startup order with Kahn's algorithm. Returns layers: units
/// within the same layer can start in parallel, and every unit starts in the
/// first layer after all the units it waits for: the units it requires, and
/// the loaded units that it wants, that it is after, or that are before it.
/// Wanted and after units that are not loaded are passed over.
pub fn resolve_startup_order(units: &UnitRegistry) -> (r: Result<Vec<Vec<String>>, DepError>)
    ensures
        r is Ok <==> forall|n: Seq<char>| #[trigger]
            units@.dom().contains(n) ==> startable(order_map(units@), n),
        r matches Ok(layers) ==> {
            &&& started_by(order_map(units@), layers@.len() as nat) == units@.dom()
            &&& forall|k: int|
                0 <= k < layers@.len() ==> {
                    &&& #[trigger] layers@[k]@.len() > 0
                    &&& layers@[k].deep_view().no_duplicates()
                    &&& layers@[k].deep_view().to_set() == startup_layer(order_map(units@), k as nat)
                }
        },
        r matches Err(DepError::Cycle(names)) ==> {
            &&& names.deep_view().no_duplicates()
            &&& names.deep_view().to_set() == Set::new(
                |n: Seq<char>| units@.dom().contains(n) && !startable(order_map(units@), n),
            )
        },
{
    proof {
        use_type_invariant(units);
    }
    let lists = order_lists(units);
    let graph = successor_graph(&units.keys, &lists);
    let n = units.keys.len();
    let ghost ks = units.key_seq();
    let ghost ds = lists.deep_view();
    let ghost g = order_map(units@);
    proof {
        assert(units@.dom() =~= ks.to_set());
        assert(g.dom() =~= ks.to_set());
        vstd::seq_lib::seq_to_set_is_finite(ks);
        assert forall|u: int, d: Seq<char>| 0 <= u < ks.len() implies (ds[u].contains(d) <==> g[ks[u]].contains(d)) by {
            lemma_order_deps_members(units@, ks[u], d);
            assert(lists.deep_view()[u].contains(d) <==> waits_for(units@, ks[u], d));
        }
        assert forall|u: int| 0 <= u < ks.len() implies #[trigger] graph@.dom().contains(ks[u]) by {
            assert(units@.dom().contains(ks[u]));
        }
        assert(kahn_context(units, &graph, g, ks, ds));
    }

    // Every unit waits for each entry of its dependency lists.
    let mut in_degree: Vec<usize> = Vec::new();
    for u in 0..n
        invariant
            kahn_context(units, &graph, g, ks, ds),
            n == ks.len(),
            ds == lists.deep_view(),
            in_degree@.len() == u,
            forall|v: int| 0 <= v < u ==> #[trigger] in_degree@[v] == pending(ds[v], started_by(g, 0)),
    {
        proof {
            assert(ds[u as int].len() == lists@[u as int].len());
            lemma_pending_empty(ds[u as int]);
            assert(started_by(g, 0) =~= Set::<Seq<char>>::empty());
        }
        in_degree.push(lists[u].len());
    }

    let ghost mut seen: Seq<bool> = Seq::empty();
    let mut queue: Vec<usize> = Vec::new();
    for u in 0..n
        invariant
            kahn_context(units, &graph, g, ks, ds),
            n == ks.len(),
            in_degree@.len() == n,
            forall|v: int| 0 <= v < n ==> #[trigger] in_degree@[v] == pending(ds[v], started_by(g, 0)),
            seen.len() == u,
            queue@.no_duplicates(),
            forall|q: int| 0 <= q < queue@.len() ==> #[trigger] queue@[q] < u,
            forall|v: int| 0 <= v < u ==> (queue@.contains(v as usize) <==> #[trigger] seen[v]),
            forall|v: int| 0 <= v < u ==> (#[trigger] seen[v] <==> startup_layer(g, 0).contains(ks[v])),
            count_true(seen) == queue@.len(),
    {
        proof {
            lemma_layer_member(g, ks, ds, 0, u as int);
            assert(started_by(g, 0) =~= Set::<Seq<char>>::empty());
            assert(seen.push(in_degree@[u as int] == 0).drop_last() =~= seen);
        }
        let ghost old_q = queue@;
        if in_degree[u] == 0 {
            queue.push(u);
        }
        proof {
            seen = seen.push(in_degree@[u as int] == 0);
            assert forall|v: int| 0 <= v < u + 1 implies (queue@.contains(v as usize) <==> #[trigger] seen[v]) by {
                if v < u {
                    if queue@.contains(v as usize) && !old_q.contains(v as usize) {
                        let p = choose|p: int| 0 <= p < queue@.len() && queue@[p] == v as usize;
                        assert(p == old_q.len());
                    }
                    if old_q.contains(v as usize) {
                        let p = choose|p: int| 0 <= p < old_q.len() && old_q[p] == v as usize;
                        assert(queue@[p] == v as usize);
                    }
                } else {
                    if queue@.contains(v as usize) && !(in_degree@[u as int] == 0) {
                        let p = choose|p: int| 0 <= p < queue@.len() && queue@[p] == v as usize;
                        assert(old_q[p] < u);
                    }
                    if in_degree@[u as int] == 0 {
                        assert(queue@[old_q.len() as int] == u);
                    }
                }
            }
        }
    }
    proof {
        assert forall|v: int| 0 <= v < n implies (#[trigger] seen[v] <==> started_by(g, 1).contains(ks[v])) by {
            lemma_layer_member(g, ks, ds, 0, v);
        }
        assert forall|v: int| 0 <= v < n implies (queue@.contains(v as usize) <==> startup_layer(g, 0).contains(#[trigger] ks[v])) by {
            assert(queue@.contains(v as usize) <==> seen[v]);
        }
    }

    let mut layers: Vec<Vec<String>> = Vec::new();
    let mut visited: usize = 0;
    let ghost mut k: nat = 0;
    while queue.len() > 0
        invariant
            kahn_context(units, &graph, g, ks, ds),
            n == ks.len(),
            in_degree@.len() == n,
            seen.len() == n,
            layers@.len() == k,
            forall|t: int|
                0 <= t < k ==> {
                    &&& #[trigger] layers@[t]@.len() > 0
                    &&& layers@[t].deep_view().no_duplicates()
                    &&& layers@[t].deep_view().to_set() == startup_layer(g, t as nat)
                },
            queue@.no_duplicates(),
            forall|q: int| 0 <= q < queue@.len() ==> #[trigger] queue@[q] < n,
            forall|u: int| 0 <= u < n ==> (queue@.contains(u as usize) <==> startup_layer(g, k).contains(#[trigger] ks[u])),
            forall|u: int| 0 <= u < n ==> #[trigger] in_degree@[u] == pending(ds[u], started_by(g, k)),
            forall|u: int| 0 <= u < n ==> (#[trigger] seen[u] <==> started_by(g, k + 1).contains(ks[u])),
            visited + queue@.len() == count_true(seen),
        decreases n - visited,
    {
        proof {
            lemma_count_true_bound(seen);
        }
        let ghost sk = started_by(g, k);
        let ghost sk1 = started_by(g, k + 1);
        proof {
            lemma_started_mono(g, k, k + 1);
        }
        let layer = queue;
        queue = Vec::new();
        visited = visited + layer.len();
        let ghost mut done: Set<Seq<char>> = sk;
        proof {
            assert forall|u: int| 0 <= u < n implies (queue@.contains(u as usize) <==> (!sk1.contains(#[trigger] ks[u]) && in_degree@[u] == 0)) by {
                lemma_layer_member(g, ks, ds, k, u);
            }
            assert forall|u: int| 0 <= u < n implies (#[trigger] seen[u] <==> (sk1.contains(ks[u]) || queue@.contains(u as usize))) by {
            }
        }
        let mut t: usize = 0;
        while t < layer.len()
            invariant
                kahn_context(units, &graph, g, ks, ds),
                n == ks.len(),
                in_degree@.len() == n,
                seen.len() == n,
                sk == started_by(g, k),
                sk1 == started_by(g, k + 1),
                sk.subset_of(sk1),
                layer@.no_duplicates(),
                forall|q: int| 0 <= q < layer@.len() ==> #[trigger] layer@[q] < n,
                forall|u: int| 0 <= u < n ==> (layer@.contains(u as usize) <==> startup_layer(g, k).contains(#[trigger] ks[u])),
                t <= layer@.len(),
                sk.subset_of(done),
                done.subset_of(sk1),
                forall|q: int| 0 <= q < t ==> done.contains(#[trigger] ks[layer@[q] as int]),
                forall|q: int| t <= q < layer@.len() ==> !done.contains(#[trigger] ks[layer@[q] as int]),
                forall|u: int| 0 <= u < n ==> #[trigger] in_degree@[u] == pending(ds[u], done),
                queue@.no_duplicates(),
                forall|q: int| 0 <= q < queue@.len() ==> #[trigger] queue@[q] < n,
                forall|u: int| 0 <= u < n ==> (queue@.contains(u as usize) <==> (!sk1.contains(#[trigger] ks[u]) && in_degree@[u] == 0)),
                forall|u: int| 0 <= u < n ==> (#[trigger] seen[u] <==> (sk1.contains(ks[u]) || queue@.contains(u as usize))),
                visited + queue@.len() == count_true(seen),
            decreases layer@.len() - t,
        {
            let x = layer[t];
            let ghost kx = ks[x as int];
            proof {
                assert(layer@.contains(x));
                assert(startup_layer(g, k).contains(kx));
                assert(!done.contains(kx));
            }
            let list = match graph.get(units.keys[x].as_str()) {
                Some(l) => l,
                None => {
                    proof {
                        assert(graph@.dom().contains(ks[x as int]));
                    }
                    return Err(DepError::Cycle(Vec::new()))
                },
            };
            let ghost lv = list.deep_view();
            proof {
                assert(lv == dependents_in(ks, ds, kx));
            }
            let mut s: usize = 0;
            while s < list.len()
                invariant
                    kahn_context(units, &graph, g, ks, ds),
                    n == ks.len(),
                    in_degree@.len() == n,
                    seen.len() == n,
                    sk == started_by(g, k),
                    sk1 == started_by(g, k + 1),
                    sk.subset_of(done),
                    done.subset_of(sk1),
                    !done.contains(kx),
                    !sk.contains(kx),
                    lv == list.deep_view(),
                    lv == dependents_in(ks, ds, kx),
                    s <= lv.len(),
                    forall|u: int| 0 <= u < n ==> #[trigger] in_degree@[u] + count_of(lv.take(s as int), ks[u]) == pending(ds[u], done),
                    queue@.no_duplicates(),
                    forall|q: int| 0 <= q < queue@.len() ==> #[trigger] queue@[q] < n,
                    forall|u: int| 0 <= u < n ==> (queue@.contains(u as usize) <==> (!sk1.contains(#[trigger] ks[u]) && in_degree@[u] == 0)),
                    forall|u: int| 0 <= u < n ==> (#[trigger] seen[u] <==> (sk1.contains(ks[u]) || queue@.contains(u as usize))),
                    visited + queue@.len() == count_true(seen),
                decreases lv.len() - s,
            {
                let dep = &list[s];
                proof {
                    lemma_dependents_are_keys(ks, ds, kx, s as int);
                    assert(dep@ == lv[s as int]);
                    assert(lv.take(s + 1) =~= lv.take(s as int).push(lv[s as int]));
                }
                match units.find(dep.as_str()) {
                    Some(u) => {
                        let ghost ku = ks[u as int];
                        proof {
                            assert(ku == dep@);
                            lemma_dependents_count(ks, ds, kx, u as int);
                            lemma_pending_insert(ds[u as int], done, kx);
                            assert(lv.take(s as int) + lv.skip(s as int) =~= lv);
                            lemma_count_concat(lv.take(s as int), lv.skip(s as int), ku);
                            assert(lv.skip(s as int).drop_last().len() + 1 == lv.skip(s as int).len());
                            assert(count_of(lv.skip(s as int), ku) >= 1) by {
                                let rest = lv.skip(s as int);
                                assert(rest[0] == ku);
                                lemma_count_concat(seq![rest[0]], rest.skip(1), ku);
                                assert(seq![rest[0]] + rest.skip(1) =~= rest);
                                let one = seq![rest[0]];
                                assert(one.drop_last() =~= Seq::<Seq<char>>::empty());
                                assert(count_of(one.drop_last(), ku) == 0);
                            }
                            lemma_count_concat(lv.take(s as int), seq![ku], ku);
                            let one = seq![ku];
                            assert(one.drop_last() =~= Seq::<Seq<char>>::empty());
                            assert(count_of(one.drop_last(), ku) == 0);
                            assert(in_degree@[u as int] >= 1);
                            // a unit that lists `kx` has not started by round k + 1
                            assert(!sk1.contains(ku)) by {
                                if sk1.contains(ku) {
                                    if sk.contains(ku) {
                                        lemma_started_deps(g, k, ku);
                                    }
                                    assert(deps_within(g[ku], sk));
                                    lemma_within_same_members(ds[u as int], g[ku], sk);
                                    lemma_pending_zero(ds[u as int], sk);
                                    lemma_pending_insert(ds[u as int], sk, kx);
                                }
                            }
                        }
                        let ghost old_q = queue@;
                        let ghost old_deg = in_degree@;
                        let ghost old_seen = seen;
                        proof {
                            assert(!old_q.contains(u));
                        }
                        let d = in_degree[u] - 1;
                        in_degree.set(u, d);
                        if d == 0 {
                            proof {
                                assert(!seen[u as int]);
                                lemma_count_true_set(seen, u as int);
                                seen = seen.update(u as int, true);
                            }
                            queue.push(u);
                        }
                        proof {
                            let one = seq![lv[s as int]];
                            assert(one.drop_last() =~= Seq::<Seq<char>>::empty());
                            assert(one.last() == ku);
                            assert(lv.take(s as int).push(lv[s as int]) =~= lv.take(s as int) + one);
                            assert forall|v: int| 0 <= v < n implies #[trigger] in_degree@[v] + count_of(lv.take(s + 1), ks[v]) == pending(ds[v], done) by {
                                lemma_count_concat(lv.take(s as int), one, ks[v]);
                                assert(count_of(one.drop_last(), ks[v]) == 0);
                                if v != u {
                                    assert(ks[v] != ku);
                                    assert(in_degree@[v] == old_deg[v]);
                                }
                            }
                            assert forall|w: int| 0 <= w < n implies (queue@.contains(w as usize) <==> (!sk1.contains(#[trigger] ks[w]) && in_degree@[w] == 0)) by {
                                if w != u {
                                    assert(in_degree@[w] == old_deg[w]);
                                    if queue@.contains(w as usize) && !old_q.contains(w as usize) {
                                        let p = choose|p: int| 0 <= p < queue@.len() && queue@[p] == w as usize;
                                        assert(p == old_q.len());
                                    }
                                    if old_q.contains(w as usize) {
                                        let p = choose|p: int| 0 <= p < old_q.len() && old_q[p] == w as usize;
                                        assert(queue@[p] == w as usize);
                                    }
                                } else {
                                    if d == 0 {
                                        assert(queue@[old_q.len() as int] == u);
                                    } else {
                                        assert(queue@ == old_q);
                                    }
                                }
                            }
                            assert forall|w: int| 0 <= w < n implies (#[trigger] seen[w] <==> (sk1.contains(ks[w]) || queue@.contains(w as usize))) by {
                                if w != u {
                                    assert(seen[w] == old_seen[w]);
                                    if queue@.contains(w as usize) && !old_q.contains(w as usize) {
                                        let p = choose|p: int| 0 <= p < queue@.len() && queue@[p] == w as usize;
                                        assert(p == old_q.len());
                                    }
                                    if old_q.contains(w as usize) {
                                        let p = choose|p: int| 0 <= p < old_q.len() && old_q[p] == w as usize;
                                        assert(queue@[p] == w as usize);
                                    }
                                } else if d == 0 {
                                    assert(queue@[old_q.len() as int] == u);
                                }
                            }
                        }
                    },
                    None => {
                        proof {
                            assert(ks.contains(dep@));
                        }
                    },
                }
                s = s + 1;
            }
            proof {
                assert(lv.take(lv.len() as int) =~= lv);
                assert forall|u: int| 0 <= u < n implies #[trigger] in_degree@[u] == pending(ds[u], done.insert(kx)) by {
                    lemma_dependents_count(ks, ds, kx, u);
                    lemma_pending_insert(ds[u], done, kx);
                }
                done = done.insert(kx);
            }
            t = t + 1;
        }
        proof {
            assert(done =~= sk1) by {
                assert forall|nm: Seq<char>| sk1.contains(nm) implies done.contains(nm) by {
                    if !sk.contains(nm) {
                        lemma_started_sub_dom(g, k + 1);
                        assert(ks.to_set().contains(nm));
                        let u = choose|u: int| 0 <= u < ks.len() && ks[u] == nm;
                        assert(startup_layer(g, k).contains(ks[u]));
                        assert(layer@.contains(u as usize));
                        let q = choose|q: int| 0 <= q < layer@.len() && layer@[q] == u as usize;
                        assert(done.contains(ks[layer@[q] as int]));
                    }
                }
            }
            assert forall|u: int| 0 <= u < n implies (queue@.contains(u as usize) <==> startup_layer(g, k + 1).contains(#[trigger] ks[u])) by {
                lemma_layer_member(g, ks, ds, k + 1, u);
            }
            assert forall|u: int| 0 <= u < n implies (#[trigger] seen[u] <==> started_by(g, k + 2).contains(ks[u])) by {
                lemma_layer_member(g, ks, ds, k + 1, u);
                lemma_started_mono(g, k + 1, k + 2);
            }
        }
        let mut names: Vec<String> = Vec::new();
        let mut q: usize = 0;
        while q < layer.len()
            invariant
                kahn_context(units, &graph, g, ks, ds),
                n == ks.len(),
                layer@.no_duplicates(),
                forall|p: int| 0 <= p < layer@.len() ==> #[trigger] layer@[p] < n,
                q <= layer@.len(),
                names@.len() == q,
                forall|p: int| 0 <= p < q ==> #[trigger] names.deep_view()[p] == ks[layer@[p] as int],
            decreases layer@.len() - q,
        {
            let ghost before = names.deep_view();
            names.push(units.keys[layer[q]].clone());
            proof {
                assert(names.deep_view() =~= before.push(ks[layer@[q as int] as int]));
            }
            q = q + 1;
        }
        proof {
            let nv = names.deep_view();
            assert forall|a: int, b: int| 0 <= a < nv.len() && 0 <= b < nv.len() && a != b implies nv[a] != nv[b] by {
                assert(layer@[a] != layer@[b]);
            }
            assert forall|nm: Seq<char>| nv.to_set().contains(nm) implies startup_layer(g, k).contains(nm) by {
                let p = choose|p: int| 0 <= p < nv.len() && nv[p] == nm;
                assert(layer@.contains(layer@[p]));
            }
            assert forall|nm: Seq<char>| startup_layer(g, k).contains(nm) implies nv.to_set().contains(nm) by {
                lemma_started_sub_dom(g, k + 1);
                assert(ks.to_set().contains(nm));
                let u = choose|u: int| 0 <= u < ks.len() && ks[u] == nm;
                assert(layer@.contains(u as usize));
                let p = choose|p: int| 0 <= p < layer@.len() && layer@[p] == u as usize;
                assert(nv[p] == nm);
            }
            assert(nv.to_set() =~= startup_layer(g, k));
            assert(names@.len() > 0);
        }
        layers.push(names);
        proof {
            k = k + 1;
        }
    }

    // No layer is left: the rounds have stopped adding units.
    proof {
        lemma_started_mono(g, k, k + 1);
        lemma_started_sub_dom(g, k + 1);
        assert(started_by(g, k + 1) =~= started_by(g, k)) by {
            assert forall|nm: Seq<char>| started_by(g, k + 1).contains(nm) implies started_by(g, k).contains(nm) by {
                assert(ks.to_set().contains(nm));
                let u = choose|u: int| 0 <= u < ks.len() && ks[u] == nm;
                if !started_by(g, k).contains(nm) {
                    assert(startup_layer(g, k).contains(ks[u]));
                    assert(queue@.contains(u as usize));
                }
            }
        }
        lemma_count_true_bound(seen);
    }
    if visited != n {
        let mut unvisited: Vec<String> = Vec::new();
        for u in 0..n
            invariant
                kahn_context(units, &graph, g, ks, ds),
                n == ks.len(),
                in_degree@.len() == n,
                started_by(g, k + 1) == started_by(g, k),
                forall|v: int| 0 <= v < n ==> #[trigger] in_degree@[v] == pending(ds[v], started_by(g, k)),
                unvisited.deep_view().no_duplicates(),
                forall|nm: Seq<char>| unvisited.deep_view().contains(nm) <==> exists|v: int| 0 <= v < u && #[trigger] ks[v] == nm && in_degree@[v] > 0,
        {
            let ghost before = unvisited.deep_view();
            if in_degree[u] > 0 {
                unvisited.push(units.keys[u].clone());
                proof {
                    assert(unvisited.deep_view() =~= before.push(ks[u as int]));
                    assert forall|a: int, b: int| 0 <= a < unvisited.deep_view().len() && 0 <= b < unvisited.deep_view().len() && a != b implies unvisited.deep_view()[a] != unvisited.deep_view()[b] by {
                        if b == before.len() {
                            assert(before.contains(before[a]));
                            let w = choose|w: int| 0 <= w < u && #[trigger] ks[w] == before[a] && in_degree@[w] > 0;
                            assert(ks[w] != ks[u as int]);
                        } else if a == before.len() {
                            assert(before.contains(before[b]));
                            let w = choose|w: int| 0 <= w < u && #[trigger] ks[w] == before[b] && in_degree@[w] > 0;
                            assert(ks[w] != ks[u as int]);
                        }
                    }
                    assert forall|nm: Seq<char>| unvisited.deep_view().contains(nm) <==> exists|v: int| 0 <= v < u + 1 && #[trigger] ks[v] == nm && in_degree@[v] > 0 by {
                        if unvisited.deep_view().contains(nm) && !before.contains(nm) {
                            let p = choose|p: int| 0 <= p < unvisited.deep_view().len() && unvisited.deep_view()[p] == nm;
                            assert(p == before.len());
                            assert(ks[u as int] == nm);
                        }
                        if exists|v: int| 0 <= v < u + 1 && #[trigger] ks[v] == nm && in_degree@[v] > 0 {
                            let v = choose|v: int| 0 <= v < u + 1 && #[trigger] ks[v] == nm && in_degree@[v] > 0;
                            if v == u {
                                assert(unvisited.deep_view()[before.len() as int] == nm);
                            } else {
                                assert(before.contains(nm));
                                let p = choose|p: int| 0 <= p < before.len() && before[p] == nm;
                                assert(unvisited.deep_view()[p] == nm);
                            }
                        }
                    }
                }
            } else {
                proof {
                    assert forall|nm: Seq<char>| unvisited.deep_view().contains(nm) <==> exists|v: int| 0 <= v < u + 1 && #[trigger] ks[v] == nm && in_degree@[v] > 0 by {
                        if exists|v: int| 0 <= v < u + 1 && #[trigger] ks[v] == nm && in_degree@[v] > 0 {
                            let v = choose|v: int| 0 <= v < u + 1 && #[trigger] ks[v] == nm && in_degree@[v] > 0;
                            assert(v != u);
                        }
                    }
                }
            }
        }
        proof {
            let target = Set::new(|nm: Seq<char>| units@.dom().contains(nm) && !startable(g, nm));
            assert forall|nm: Seq<char>| unvisited.deep_view().to_set().contains(nm) <==> target.contains(nm) by {
                if unvisited.deep_view().contains(nm) {
                    let v = choose|v: int| 0 <= v < n && #[trigger] ks[v] == nm && in_degree@[v] > 0;
                    lemma_pending_zero(ds[v], started_by(g, k));
                    assert(!started_by(g, k).contains(nm)) by {
                        if started_by(g, k).contains(nm) {
                            lemma_started_deps(g, k, nm);
                            lemma_within_same_members(ds[v], g[nm], started_by(g, k));
                        }
                    }
                    lemma_not_startable(g, k, nm);
                    assert(units@.dom().contains(nm));
                }
                if target.contains(nm) {
                    assert(ks.to_set().contains(nm));
                    let v = choose|v: int| 0 <= v < ks.len() && ks[v] == nm;
                    if in_degree@[v] == 0 {
                        lemma_pending_zero(ds[v], started_by(g, k));
                        lemma_layer_member(g, ks, ds, k, v);
                        assert(started_by(g, k + 1).contains(nm));
                    }
                }
            }
            assert(unvisited.deep_view().to_set() =~= target);
            // some unit never started: otherwise all would have been seen
            let v = choose|v: int| 0 <= v < seen.len() && !seen[v];
            assert(!started_by(g, k).contains(ks[v]));
            lemma_not_startable(g, k, ks[v]);
            assert(units@.dom().contains(ks[v]));
        }
        return Err(DepError::Cycle(unvisited));
    }
    proof {
        assert forall|nm: Seq<char>| units@.dom().contains(nm) implies started_by(g, k).contains(nm) by {
            assert(ks.to_set().contains(nm));
            let v = choose|v: int| 0 <= v < ks.len() && ks[v] == nm;
            assert(seen[v]);
        }
        assert forall|nm: Seq<char>| #[trigger] units@.dom().contains(nm) implies startable(g, nm) by {
            assert(started_by(g, k).contains(nm));
        }
        lemma_started_sub_dom(g, k);
        assert(started_by(g, k) =~= units@.dom());
    }
    Ok(layers)
}


/// The pairs `(name, c)` for each conflict `c` of unit `name` that is loaded.
pub open spec fn conflicts_of(name: Seq<char>, cs: Seq<Seq<char>>, loaded: Set<Seq<char>>) -> Seq<
    (Seq<char>, Seq<char>),
>
    decreases cs.len(),
{
    if cs.len() == 0 {
        Seq::empty()
    } else {
        conflicts_of(name, cs.drop_last(), loaded) + if loaded.contains(cs.last()) {
            seq![(name, cs.last())]
        } else {
            Seq::empty()
        }
    }
}

/// The conflicting pairs of all units, in the order of `keys`.
pub open spec fn conflict_pairs(
    keys: Seq<Seq<char>>,
    cs: Seq<Seq<Seq<char>>>,
    loaded: Set<Seq<char>>,
) -> Seq<(Seq<char>, Seq<char>)>
    decreases keys.len(),
{
    if keys.len() == 0 {
        Seq::empty()
    } else {
        conflict_pairs(keys.drop_last(), cs.drop_last(), loaded) + conflicts_of(
            keys.last(),
            cs[keys.len() - 1],
            loaded,
        )
    }
}

pub open spec fn pair_views(s: Seq<(String, String)>) -> Seq<(Seq<char>, Seq<char>)> {
    s.map_values(|p: (String, String)| (p.0@, p.1@))
}

/// How many times the pair `(a, c)` occurs in `s`.
pub open spec fn pair_count(s: Seq<(Seq<char>, Seq<char>)>, a: Seq<char>, c: Seq<char>) -> nat
    decreases s.len(),
{
    if s.len() == 0 {
        0
    } else {
        pair_count(s.drop_last(), a, c) + if s.last() == (a, c) {
            1nat
        } else {
            0nat
        }
    }
}

proof fn lemma_pair_count_concat(x: Seq<(Seq<char>, Seq<char>)>, y: Seq<(Seq<char>, Seq<char>)>, a: Seq<char>, c: Seq<char>)
    ensures
        pair_count(x + y, a, c) == pair_count(x, a, c) + pair_count(y, a, c),
    decreases y.len(),
{
    if y.len() == 0 {
        assert(x + y =~= x);
    } else {
        assert((x + y).drop_last() =~= x + y.drop_last());
        lemma_pair_count_concat(x, y.drop_last(), a, c);
    }
}

proof fn lemma_conflicts_of_count(name: Seq<char>, cs: Seq<Seq<char>>, loaded: Set<Seq<char>>, a: Seq<char>, c: Seq<char>)
    ensures
        pair_count(conflicts_of(name, cs, loaded), a, c) == if a == name && loaded.contains(c) {
            count_of(cs, c)
        } else {
            0
        },
    decreases cs.len(),
{
    if cs.len() > 0 {
        lemma_conflicts_of_count(name, cs.drop_last(), loaded, a, c);
        let tail: Seq<(Seq<char>, Seq<char>)> = if loaded.contains(cs.last()) {
            seq![(name, cs.last())]
        } else {
            Seq::empty()
        };
        lemma_pair_count_concat(conflicts_of(name, cs.drop_last(), loaded), tail, a, c);
        if loaded.contains(cs.last()) {
            assert(tail.drop_last() =~= Seq::<(Seq<char>, Seq<char>)>::empty());
            assert(pair_count(tail.drop_last(), a, c) == 0);
        }
        assert(pair_count(tail, a, c) == if loaded.contains(cs.last()) && name == a && cs.last() == c {
            1nat
        } else {
            0nat
        });
    }
}

proof fn lemma_conflict_pairs_count(
    keys: Seq<Seq<char>>,
    cs: Seq<Seq<Seq<char>>>,
    loaded: Set<Seq<char>>,
    a: Seq<char>,
    c: Seq<char>,
)
    requires
        keys.len() == cs.len(),
        keys.no_duplicates(),
    ensures
        !keys.contains(a) ==> pair_count(conflict_pairs(keys, cs, loaded), a, c) == 0,
        forall|u: int|
            0 <= u < keys.len() && keys[u] == a ==> pair_count(conflict_pairs(keys, cs, loaded), a, c) == if loaded.contains(
                c,
            ) {
                count_of(cs[u], c)
            } else {
                0
            },
    decreases keys.len(),
{
    if keys.len() > 0 {
        let n = keys.len() - 1;
        assert(keys.drop_last().no_duplicates());
        lemma_conflict_pairs_count(keys.drop_last(), cs.drop_last(), loaded, a, c);
        lemma_pair_count_concat(conflict_pairs(keys.drop_last(), cs.drop_last(), loaded), conflicts_of(keys.last(), cs[n], loaded), a, c);
        lemma_conflicts_of_count(keys.last(), cs[n], loaded, a, c);
        if keys.last() == a {
            assert(!keys.drop_last().contains(a)) by {
                if keys.drop_last().contains(a) {
                    let i = choose|i: int| 0 <= i < keys.drop_last().len() && keys.drop_last()[i] == a;
                    assert(keys[i] == keys[n]);
                }
            }
        }
        assert forall|u: int| 0 <= u < keys.len() && keys[u] == a implies pair_count(conflict_pairs(keys, cs, loaded), a, c) == if loaded.contains(c) {
            count_of(cs[u], c)
        } else {
            0
        } by {
            if u < n {
                assert(keys.drop_last()[u] == a);
                assert(keys[u] != keys[n]);
                assert(cs.drop_last()[u] == cs[u]);
            }
        }
        if !keys.contains(a) {
            assert(!keys.drop_last().contains(a)) by {
                if keys.drop_last().contains(a) {
                    let i = choose|i: int| 0 <= i < keys.drop_last().len() && keys.drop_last()[i] == a;
                    assert(keys[i] == a);
                }
            }
            assert(keys.last() != a);
        }
    }
}

/// Detect conflicting units that should not run simultaneously: each loaded
/// unit paired with each loaded unit that it declares a conflict with.
pub fn detect_conflicts(units: &UnitRegistry) -> (r: Vec<(String, String)>)
    ensures
        pair_views(r@) == conflict_pairs(units.key_seq(), units.conflict_seq(), units@.dom()),
        forall|a: Seq<char>, c: Seq<char>|
            #[trigger] pair_count(pair_views(r@), a, c) == if units@.dom().contains(a) && units@.dom().contains(c) {
                count_of(units@[a].unit.conflicts.deep_view(), c)
            } else {
                0
            },
{
    proof {
        use_type_invariant(units);
    }
    let ghost ks = units.key_seq();
    let ghost cs = units.conflict_seq();
    let ghost dom = units@.dom();
    let mut conflicts: Vec<(String, String)> = Vec::new();
    let n = units.keys.len();
    for i in 0..n
        invariant
            n == ks.len(),
            ks == units.key_seq(),
            cs == units.conflict_seq(),
            dom == units@.dom(),
            units.units.len() == n,
            cs.len() == n,
            pair_views(conflicts@) == conflict_pairs(ks.take(i as int), cs.take(i as int), dom),
    {
        let name = &units.keys[i];
        let unit = &units.units[i];
        let ghost ci = cs[i as int];
        let ghost start = conflict_pairs(ks.take(i as int), cs.take(i as int), dom);
        proof {
            assert(ci == unit.unit.conflicts.deep_view());
            assert(ci.take(0) =~= Seq::<Seq<char>>::empty());
            assert(start + conflicts_of(ks[i as int], ci.take(0), dom) =~= start);
        }
        for j in 0..unit.unit.conflicts.len()
            invariant
                ci == unit.unit.conflicts.deep_view(),
                name@ == ks[i as int],
                dom == units@.dom(),
                pair_views(conflicts@) == start + conflicts_of(ks[i as int], ci.take(j as int), dom),
        {
            let c = &unit.unit.conflicts[j];
            let ghost before = conflicts@;
            proof {
                assert(ci.take(j + 1).drop_last() =~= ci.take(j as int));
                assert(ci.take(j + 1).last() == c@);
            }
            if units.contains_key(c.as_str()) {
                conflicts.push((name.clone(), c.clone()));
                proof {
                    assert(pair_views(conflicts@) =~= pair_views(before).push((name@, c@)));
                }
            }
            proof {
                assert(pair_views(conflicts@) =~= start + conflicts_of(ks[i as int], ci.take(j + 1), dom));
            }
        }
        proof {
            assert(ci.take(ci.len() as int) =~= ci);
            assert(ks.take(i + 1).drop_last() =~= ks.take(i as int));
            assert(cs.take(i + 1).drop_last() =~= cs.take(i as int));
        }
    }
    proof {
        assert(ks.take(n as int) =~= ks);
        assert(cs.take(n as int) =~= cs);
        assert(units@.dom() =~= ks.to_set());
        assert forall|a: Seq<char>, c: Seq<char>| #[trigger] pair_count(pair_views(conflicts@), a, c) == if units@.dom().contains(a)
            && units@.dom().contains(c) {
            count_of(units@[a].unit.conflicts.deep_view(), c)
        } else {
            0
        } by {
            lemma_conflict_pairs_count(ks, cs, dom, a, c);
            if ks.contains(a) {
                let u = choose|u: int| 0 <= u < ks.len() && ks[u] == a;
                lemma_keyed_at(ks, units.unit_seq(), u);
                assert(cs[u] == units.unit_seq()[u].unit.conflicts.deep_view());
            }
        }
    }
    conflicts
}


/// The units that starting `roots` brings in within `k` steps: the loaded
/// roots, then every loaded unit that a unit brought in requires or wants.
pub open spec fn brought_in(g: Map<Seq<char>, Seq<Seq<char>>>, roots: Set<Seq<char>>, k: nat) -> Set<
    Seq<char>,
>
    decreases k,
{
    if k == 0 {
        roots.intersect(g.dom())
    } else {
        let prev = brought_in(g, roots, (k - 1) as nat);
        Set::new(
            |n: Seq<char>|
                prev.contains(n) || (g.dom().contains(n) && exists|m: Seq<char>|
                    prev.contains(m) && #[trigger] g[m].contains(n)),
        )
    }
}

/// Every unit that starting `roots` brings in.
pub open spec fn start_set(g: Map<Seq<char>, Seq<Seq<char>>>, roots: Set<Seq<char>>) -> Set<Seq<char>> {
    Set::new(|n: Seq<char>| exists|k: nat| #[trigger] brought_in(g, roots, k).contains(n))
}

/// The dependency lists of the keys not yet in `seen`, each counted once more.
spec fn work(ks: Seq<Seq<char>>, ds: Seq<Seq<Seq<char>>>, seen: Set<Seq<char>>) -> nat
    decreases ks.len(),
{
    if ks.len() == 0 {
        0
    } else {
        work(ks.drop_last(), ds.drop_last(), seen) + if seen.contains(ks.last()) {
            0
        } else {
            ds[ks.len() - 1].len() + 1
        }
    }
}

proof fn lemma_work_insert(ks: Seq<Seq<char>>, ds: Seq<Seq<Seq<char>>>, seen: Set<Seq<char>>, x: Seq<char>)
    requires
        ks.len() == ds.len(),
        ks.no_duplicates(),
        !seen.contains(x),
    ensures
        ks.contains(x) ==> work(ks, ds, seen.insert(x)) + ds[ks.index_of(x)].len() + 1 == work(ks, ds, seen),
        !ks.contains(x) ==> work(ks, ds, seen.insert(x)) == work(ks, ds, seen),
    decreases ks.len(),
{
    if ks.len() > 0 {
        let n = ks.len() - 1;
        lemma_work_insert(ks.drop_last(), ds.drop_last(), seen, x);
        if ks.contains(x) {
            let u = ks.index_of(x);
            assert(ks[u] == x);
            if u < n {
                assert(ks.drop_last()[u] == x);
                assert(ks.drop_last().contains(x));
                let v = ks.drop_last().index_of(x);
                assert(ks.drop_last()[v] == x);
                assert(ks[v] == x);
                assert(ks.last() != x);
            } else {
                assert(!ks.drop_last().contains(x)) by {
                    if ks.drop_last().contains(x) {
                        let v = choose|v: int| 0 <= v < n && ks.drop_last()[v] == x;
                        assert(ks[v] == x);
                    }
                }
            }
        } else {
            assert(!ks.drop_last().contains(x)) by {
                if ks.drop_last().contains(x) {
                    let v = choose|v: int| 0 <= v < n && ks.drop_last()[v] == x;
                    assert(ks[v] == x);
                }
            }
            assert(ks.last() != x) by {
                assert(ks[n] == ks.last());
            }
        }
    }
}

/// A set that holds the loaded roots and every loaded dependency of its
/// members holds every unit that the roots bring in.
proof fn lemma_brought_in_within(g: Map<Seq<char>, Seq<Seq<char>>>, roots: Set<Seq<char>>, s: Set<Seq<char>>, k: nat)
    requires
        roots.intersect(g.dom()).subset_of(s),
        forall|m: Seq<char>, j: int| s.contains(m) && 0 <= j < g[m].len() && g.dom().contains(#[trigger] g[m][j]) ==> s.contains(g[m][j]),
    ensures
        brought_in(g, roots, k).subset_of(s),
    decreases k,
{
    if k > 0 {
        lemma_brought_in_within(g, roots, s, (k - 1) as nat);
        let prev = brought_in(g, roots, (k - 1) as nat);
        assert forall|n: Seq<char>| brought_in(g, roots, k).contains(n) implies s.contains(n) by {
            if !prev.contains(n) {
                let m = choose|m: Seq<char>| prev.contains(m) && #[trigger] g[m].contains(n);
                let j = choose|j: int| 0 <= j < g[m].len() && g[m][j] == n;
            }
        }
    }
}

/// Whether `v` holds `s`.
fn contains_str(v: &Vec<String>, s: &str) -> (r: bool)
    ensures
        r == v.deep_view().contains(s@),
{
    find_key(v, s).is_some()
}

/// The units to start for `roots`: the roots and everything they require or
/// want, transitively, among the loaded units; names that are not loaded
/// are passed over.
pub(crate) fn units_to_start(registry: &UnitRegistry, roots: &Vec<String>) -> (r: UnitRegistry)
    ensures
        r@.dom() == start_set(dep_map(registry@), roots.deep_view().to_set()),
        forall|n: Seq<char>| #[trigger] r@.dom().contains(n) ==> {
            &&& r@[n].dep_names() == registry@[n].dep_names()
            &&& r@[n].unit.requires.deep_view() == registry@[n].unit.requires.deep_view()
            &&& r@[n].unit.wants.deep_view() == registry@[n].unit.wants.deep_view()
            &&& r@[n].unit.after.deep_view() == registry@[n].unit.after.deep_view()
            &&& r@[n].unit.before.deep_view() == registry@[n].unit.before.deep_view()
            &&& r@[n].service.is_some() == registry@[n].service.is_some()
            &&& r@[n].network.is_some() == registry@[n].network.is_some()
        },
{
    proof {
        use_type_invariant(registry);
    }
    let ghost ks = registry.key_seq();
    let ghost ds = registry.dep_seq();
    let ghost g = dep_map(registry@);
    let ghost rs = roots.deep_view().to_set();
    proof {
        assert(g.dom() =~= ks.to_set());
        assert forall|u: int| 0 <= u < ks.len() implies #[trigger] g[ks[u]] == ds[u] by {
            lemma_keyed_at(ks, registry.unit_seq(), u);
        }
    }
    let mut to_start = UnitRegistry::new();
    let mut queue: Vec<String> = clone_strings(roots);
    let mut seen: Vec<String> = Vec::new();
    proof {
        assert(seen.deep_view().to_set() =~= Set::<Seq<char>>::empty());
        assert(to_start@.dom() =~= seen.deep_view().to_set().intersect(g.dom()));
    }
    while queue.len() > 0
        invariant
            ks == registry.key_seq(),
            ds == registry.dep_seq(),
            ks.len() == ds.len(),
            ks.len() == registry.unit_seq().len(),
            ks.no_duplicates(),
            g == dep_map(registry@),
            g.dom() == ks.to_set(),
            forall|u: int| 0 <= u < ks.len() ==> #[trigger] g[ks[u]] == ds[u],
            forall|n: Seq<char>| #[trigger] registry@.dom().contains(n) ==> registry@[n].dep_names().len() <= usize::MAX,
            rs == roots.deep_view().to_set(),
            to_start@.dom() == seen.deep_view().to_set().intersect(g.dom()),
            forall|n: Seq<char>| #[trigger] to_start@.dom().contains(n) ==> {
                &&& to_start@[n].dep_names() == registry@[n].dep_names()
            &&& to_start@[n].unit.requires.deep_view() == registry@[n].unit.requires.deep_view()
            &&& to_start@[n].unit.wants.deep_view() == registry@[n].unit.wants.deep_view()
            &&& to_start@[n].unit.after.deep_view() == registry@[n].unit.after.deep_view()
            &&& to_start@[n].unit.before.deep_view() == registry@[n].unit.before.deep_view()
                &&& to_start@[n].service.is_some() == registry@[n].service.is_some()
                &&& to_start@[n].network.is_some() == registry@[n].network.is_some()
            },
            forall|n: Seq<char>| seen.deep_view().contains(n) && #[trigger] g.dom().contains(n) ==> start_set(g, rs).contains(n),
            forall|i: int| 0 <= i < queue.deep_view().len() ==> rs.contains(#[trigger] queue.deep_view()[i]) || exists|m: Seq<char>|
                seen.deep_view().contains(m) && g.dom().contains(m) && #[trigger] g[m].contains(queue.deep_view()[i]),
            forall|w: Seq<char>| #[trigger] rs.contains(w) ==> seen.deep_view().contains(w) || queue.deep_view().contains(w),
            forall|m: Seq<char>, j: int| seen.deep_view().contains(m) && g.dom().contains(m) && 0 <= j < g[m].len() ==> seen.deep_view().contains(#[trigger] g[m][j]) || queue.deep_view().contains(g[m][j]),
        decreases queue.deep_view().len() + work(ks, ds, seen.deep_view().to_set()),
    {
        proof {
            assert forall|n: Seq<char>| #[trigger] registry@.dom().contains(n) implies registry@[n].dep_names().len() <= usize::MAX by {}
        }
        let ghost q0 = queue.deep_view();
        let ghost s0 = seen.deep_view();
        let name = match queue.pop() {
            Some(x) => x,
            None => {
                return to_start;
            },
        };
        proof {
            assert(queue.deep_view() =~= q0.drop_last());
            assert(name@ == q0.last());
        }
        if contains_str(&seen, name.as_str()) {
            proof {
                assert forall|w: Seq<char>| #[trigger] rs.contains(w) implies seen.deep_view().contains(w) || queue.deep_view().contains(w) by {
                    if q0.contains(w) && !s0.contains(w) {
                        let i = choose|i: int| 0 <= i < q0.len() && q0[i] == w;
                        if i < q0.len() - 1 {
                            assert(queue.deep_view()[i] == w);
                        }
                    }
                }
                assert forall|m: Seq<char>, j: int| seen.deep_view().contains(m) && g.dom().contains(m) && 0 <= j < g[m].len() implies seen.deep_view().contains(#[trigger] g[m][j]) || queue.deep_view().contains(g[m][j]) by {
                    let d = g[m][j];
                    if q0.contains(d) && !s0.contains(d) {
                        let i = choose|i: int| 0 <= i < q0.len() && q0[i] == d;
                        if i < q0.len() - 1 {
                            assert(queue.deep_view()[i] == d);
                        }
                    }
                }
                assert forall|i: int| 0 <= i < queue.deep_view().len() implies rs.contains(#[trigger] queue.deep_view()[i]) || exists|m: Seq<char>|
                    seen.deep_view().contains(m) && g.dom().contains(m) && #[trigger] g[m].contains(queue.deep_view()[i]) by {
                    assert(queue.deep_view()[i] == q0[i]);
                }
            }
            continue;
        }
        let ghost nv = name@;
        proof {
            // the popped name belongs with the units to start, if it is loaded
            if g.dom().contains(nv) {
                let i = q0.len() - 1;
                assert(q0[i] == nv);
                if rs.contains(nv) {
                    assert(brought_in(g, rs, 0).contains(nv));
                } else {
                    let m = choose|m: Seq<char>| s0.contains(m) && g.dom().contains(m) && #[trigger] g[m].contains(q0[i]);
                    assert(start_set(g, rs).contains(m));
                    let k = choose|k: nat| #[trigger] brought_in(g, rs, k).contains(m);
                    assert(brought_in(g, rs, k + 1).contains(nv));
                }
            }
            lemma_work_insert(ks, ds, s0.to_set(), nv);
        }
        seen.push(name.clone());
        proof {
            assert(seen.deep_view() =~= s0.push(nv));
            s0.lemma_push_to_set_commute(nv);
        }
        match registry.get(name.as_str()) {
            Some(unit) => {
                let ghost u = ks.index_of(nv);
                proof {
                    assert(ks.to_set().contains(nv));
                    assert(ks.contains(nv));
                    assert(ks[u] == nv);
                    assert(g[nv] == ds[u]);
                    assert(unit.dep_names() == registry@[nv].dep_names());
                    assert(registry@.dom().contains(nv));
                    assert(g[nv] == unit.dep_names());
                }
                let ghost di = unit.dep_names();
                let rlen = unit.unit.requires.len();
                let wlen = unit.unit.wants.len();
                proof {
                    assert(unit.unit.requires.deep_view().len() == rlen);
                    assert(unit.unit.wants.deep_view().len() == wlen);
                }
                let total = rlen + wlen;
                let ghost q1 = queue.deep_view();
                let mut j: usize = 0;
                while j < total
                    invariant
                        total == rlen + wlen,
                        rlen == unit.unit.requires.len(),
                        wlen == unit.unit.wants.len(),
                        di == unit.dep_names(),
                        di.len() == total,
                        j <= total,
                        q1.len() <= queue.deep_view().len() <= q1.len() + j,
                        forall|i: int| 0 <= i < q1.len() ==> #[trigger] queue.deep_view()[i] == q1[i],
                        forall|i: int| q1.len() <= i < queue.deep_view().len() ==> di.contains(#[trigger] queue.deep_view()[i]),
                        forall|jj: int| 0 <= jj < j ==> seen.deep_view().contains(#[trigger] di[jj]) || queue.deep_view().contains(di[jj]),
                    decreases total - j,
                {
                    let dep = if j < rlen {
                        &unit.unit.requires[j]
                    } else {
                        &unit.unit.wants[j - rlen]
                    };
                    proof {
                        assert(dep@ == di[j as int]);
                    }
                    let ghost qb = queue.deep_view();
                    if !contains_str(&seen, dep.as_str()) {
                        queue.push(dep.clone());
                        proof {
                            assert(queue.deep_view() =~= qb.push(dep@));
                            assert(queue.deep_view()[qb.len() as int] == di[j as int]);
                            assert forall|jj: int| 0 <= jj < j + 1 implies seen.deep_view().contains(#[trigger] di[jj]) || queue.deep_view().contains(di[jj]) by {
                                if jj < j && qb.contains(di[jj]) {
                                    let i = choose|i: int| 0 <= i < qb.len() && qb[i] == di[jj];
                                    assert(queue.deep_view()[i] == di[jj]);
                                }
                            }
                            assert forall|i: int| q1.len() <= i < queue.deep_view().len() implies di.contains(#[trigger] queue.deep_view()[i]) by {
                                if i == qb.len() {
                                    assert(di[j as int] == queue.deep_view()[i]);
                                } else {
                                    assert(queue.deep_view()[i] == qb[i]);
                                }
                            }
                        }
                    }
                    j = j + 1;
                }
                let dup = unit.duplicate();
                proof {
                    assert(registry@[nv].dep_names().len() <= usize::MAX);
                }
                let ghost t0 = to_start@;
                to_start.insert(name, dup);
                proof {
                    let sv = seen.deep_view();
                    let qv = queue.deep_view();
                    assert(to_start@.dom() =~= sv.to_set().intersect(g.dom()));
                    assert forall|i: int| 0 <= i < qv.len() implies rs.contains(#[trigger] qv[i]) || exists|m: Seq<char>|
                        sv.contains(m) && g.dom().contains(m) && #[trigger] g[m].contains(qv[i]) by {
                        if i < q1.len() {
                            assert(qv[i] == q0[i]);
                            if !rs.contains(qv[i]) {
                                let m = choose|m: Seq<char>| s0.contains(m) && g.dom().contains(m) && #[trigger] g[m].contains(q0[i]);
                                assert(sv.contains(m)) by {
                                    let p = choose|p: int| 0 <= p < s0.len() && s0[p] == m;
                                    assert(sv[p] == m);
                                }
                            }
                        } else {
                            assert(sv.contains(nv)) by {
                                assert(sv[s0.len() as int] == nv);
                            }
                            assert(g[nv].contains(qv[i]));
                        }
                    }
                    assert forall|w: Seq<char>| #[trigger] rs.contains(w) implies sv.contains(w) || qv.contains(w) by {
                        if q0.contains(w) && !s0.contains(w) && w != nv {
                            let i = choose|i: int| 0 <= i < q0.len() && q0[i] == w;
                            assert(i < q0.len() - 1);
                            assert(qv[i] == w);
                        }
                        if s0.contains(w) {
                            let p = choose|p: int| 0 <= p < s0.len() && s0[p] == w;
                            assert(sv[p] == w);
                        }
                        if w == nv {
                            assert(sv[s0.len() as int] == nv);
                        }
                    }
                    assert forall|m: Seq<char>, jj: int| sv.contains(m) && g.dom().contains(m) && 0 <= jj < g[m].len() implies sv.contains(#[trigger] g[m][jj]) || qv.contains(g[m][jj]) by {
                        let d = g[m][jj];
                        if s0.contains(d) {
                            let p = choose|p: int| 0 <= p < s0.len() && s0[p] == d;
                            assert(sv[p] == d);
                        } else if d == nv {
                            assert(sv[s0.len() as int] == nv);
                        } else if m == nv {
                            assert(di[jj] == d);
                        } else {
                            assert(s0.contains(m)) by {
                                let p = choose|p: int| 0 <= p < sv.len() && sv[p] == m;
                                if p == s0.len() {
                                    assert(m == nv);
                                } else {
                                    assert(s0[p] == m);
                                }
                            }
                            assert(q0.contains(d));
                            let i = choose|i: int| 0 <= i < q0.len() && q0[i] == d;
                            assert(i < q0.len() - 1);
                            assert(qv[i] == d);
                        }
                    }
                    assert forall|n: Seq<char>| sv.contains(n) && #[trigger] g.dom().contains(n) implies start_set(g, rs).contains(n) by {
                        if n != nv {
                            let p = choose|p: int| 0 <= p < sv.len() && sv[p] == n;
                            assert(s0[p] == n);
                        }
                    }
                    assert(work(ks, ds, sv.to_set()) + di.len() + 1 == work(ks, ds, s0.to_set()));
                }
            },
            None => {
                proof {
                    let sv = seen.deep_view();
                    let qv = queue.deep_view();
                    assert(!g.dom().contains(nv));
                    assert(!ks.contains(nv));
                    assert(to_start@.dom() =~= sv.to_set().intersect(g.dom()));
                    assert forall|i: int| 0 <= i < qv.len() implies rs.contains(#[trigger] qv[i]) || exists|m: Seq<char>|
                        sv.contains(m) && g.dom().contains(m) && #[trigger] g[m].contains(qv[i]) by {
                        assert(qv[i] == q0[i]);
                        if !rs.contains(qv[i]) {
                            let m = choose|m: Seq<char>| s0.contains(m) && g.dom().contains(m) && #[trigger] g[m].contains(q0[i]);
                            let p = choose|p: int| 0 <= p < s0.len() && s0[p] == m;
                            assert(sv[p] == m);
                        }
                    }
                    assert forall|w: Seq<char>| #[trigger] rs.contains(w) implies sv.contains(w) || qv.contains(w) by {
                        if s0.contains(w) {
                            let p = choose|p: int| 0 <= p < s0.len() && s0[p] == w;
                            assert(sv[p] == w);
                        } else if w == nv {
                            assert(sv[s0.len() as int] == nv);
                        } else {
                            let i = choose|i: int| 0 <= i < q0.len() && q0[i] == w;
                            assert(qv[i] == w);
                        }
                    }
                    assert forall|m: Seq<char>, jj: int| sv.contains(m) && g.dom().contains(m) && 0 <= jj < g[m].len() implies sv.contains(#[trigger] g[m][jj]) || qv.contains(g[m][jj]) by {
                        let d = g[m][jj];
                        assert(m != nv);
                        assert(s0.contains(m)) by {
                            let p = choose|p: int| 0 <= p < sv.len() && sv[p] == m;
                            assert(s0[p] == m);
                        }
                        if s0.contains(d) {
                            let p = choose|p: int| 0 <= p < s0.len() && s0[p] == d;
                            assert(sv[p] == d);
                        } else if d == nv {
                            assert(sv[s0.len() as int] == nv);
                        } else {
                            let i = choose|i: int| 0 <= i < q0.len() && q0[i] == d;
                            assert(qv[i] == d);
                        }
                    }
                    assert forall|n: Seq<char>| sv.contains(n) && #[trigger] g.dom().contains(n) implies start_set(g, rs).contains(n) by {
                        let p = choose|p: int| 0 <= p < sv.len() && sv[p] == n;
                        assert(s0[p] == n);
                    }
                }
            },
        }
    }
    proof {
        let sv = seen.deep_view();
        let s = sv.to_set().intersect(g.dom());
        assert(queue.deep_view().len() == 0);
        lemma_brought_in_mono_within(g, rs, s);
        assert(to_start@.dom() =~= start_set(g, rs));
    }
    to_start
}

proof fn lemma_brought_in_mono_within(g: Map<Seq<char>, Seq<Seq<char>>>, rs: Set<Seq<char>>, s: Set<Seq<char>>)
    requires
        rs.intersect(g.dom()).subset_of(s),
        s.subset_of(g.dom()),
        forall|n: Seq<char>| s.contains(n) ==> start_set(g, rs).contains(n),
        forall|m: Seq<char>, j: int| s.contains(m) && 0 <= j < g[m].len() && g.dom().contains(#[trigger] g[m][j]) ==> s.contains(g[m][j]),
    ensures
        s == start_set(g, rs),
{
    assert forall|n: Seq<char>| start_set(g, rs).contains(n) implies s.contains(n) by {
        let k = choose|k: nat| #[trigger] brought_in(g, rs, k).contains(n);
        lemma_brought_in_within(g, rs, s, k);
    }
    assert(s =~= start_set(g, rs));
}


pub proof fn lemma_start_set_loaded(g: Map<Seq<char>, Seq<Seq<char>>>, roots: Set<Seq<char>>)
    ensures
        start_set(g, roots).subset_of(g.dom()),
{
    assert forall|n: Seq<char>| start_set(g, roots).contains(n) implies g.dom().contains(n) by {
        let k = choose|k: nat| #[trigger] brought_in(g, roots, k).contains(n);
        lemma_brought_in_loaded(g, roots, k);
    }
}

proof fn lemma_brought_in_loaded(g: Map<Seq<char>, Seq<Seq<char>>>, roots: Set<Seq<char>>, k: nat)
    ensures
        brought_in(g, roots, k).subset_of(g.dom()),
    decreases k,
{
    if k > 0 {
        lemma_brought_in_loaded(g, roots, (k - 1) as nat);
    }
}


/// No roots bring in nothing.
pub proof fn lemma_start_set_empty(g: Map<Seq<char>, Seq<Seq<char>>>)
    ensures
        start_set(g, Set::empty()) == Set::<Seq<char>>::empty(),
{
    assert forall|n: Seq<char>| !start_set(g, Set::empty()).contains(n) by {
        assert forall|k: nat| !#[trigger] brought_in(g, Set::empty(), k).contains(n) by {
            lemma_brought_in_empty(g, k);
        }
    }
    assert(start_set(g, Set::empty()) =~= Set::<Seq<char>>::empty());
}

proof fn lemma_brought_in_empty(g: Map<Seq<char>, Seq<Seq<char>>>, k: nat)
    ensures
        brought_in(g, Set::empty(), k) == Set::<Seq<char>>::empty(),
    decreases k,
{
    if k == 0 {
        assert(Set::<Seq<char>>::empty().intersect(g.dom()) =~= Set::<Seq<char>>::empty());
    } else {
        lemma_brought_in_empty(g, (k - 1) as nat);
        assert(brought_in(g, Set::empty(), k) =~= Set::<Seq<char>>::empty());
    }
}


proof fn lemma_started_by_layer(g: Map<Seq<char>, Seq<Seq<char>>>, k: nat, n: Seq<char>)
    requires
        started_by(g, k).contains(n),
    ensures
        exists|j: nat| j < k && #[trigger] startup_layer(g, j).contains(n),
    decreases k,
{
    let prev = started_by(g, (k - 1) as nat);
    if prev.contains(n) {
        lemma_started_by_layer(g, (k - 1) as nat, n);
        let j = choose|j: nat| j < k - 1 && #[trigger] startup_layer(g, j).contains(n);
        assert(startup_layer(g, j).contains(n));
    } else {
        assert(startup_layer(g, (k - 1) as nat).contains(n));
    }
}

/// Every unit that a unit waits for starts in an earlier layer than it: the
/// layers are a topological order of the startup ordering graph.
pub proof fn dependencies_start_in_earlier_layers(units: Map<Seq<char>, Unit>, k: nat, n: Seq<char>, d: Seq<char>)
    requires
        startup_layer(order_map(units), k).contains(n),
        order_deps(units, n).contains(d),
    ensures
        exists|j: nat| j < k && #[trigger] startup_layer(order_map(units), j).contains(d),
{
    let g = order_map(units);
    assert(started_by(g, k + 1).contains(n));
    assert(!started_by(g, k).contains(n));
    assert(g.dom().contains(n) && deps_within(g[n], started_by(g, k)));
    let i = choose|i: int| 0 <= i < order_deps(units, n).len() && order_deps(units, n)[i] == d;
    assert(g[n] == order_deps(units, n));
    assert(started_by(g, k).contains(g[n][i]));
    lemma_started_by_layer(g, k, d);
}

/// When every unit has started after `n` rounds (as a successful startup
/// order of `n` layers states), each unit starts in one of those layers.
pub proof fn every_unit_in_some_layer(units: Map<Seq<char>, Unit>, n: nat, u: Seq<char>)
    requires
        started_by(order_map(units), n) == units.dom(),
        units.dom().contains(u),
    ensures
        exists|k: nat| k < n && #[trigger] startup_layer(order_map(units), k).contains(u),
{
    lemma_started_by_layer(order_map(units), n, u);
}

/// A unit starts in one layer only.
pub proof fn startup_layers_disjoint(units: Map<Seq<char>, Unit>, i: nat, j: nat, n: Seq<char>)
    requires
        i != j,
        startup_layer(order_map(units), i).contains(n),
    ensures
        !startup_layer(order_map(units), j).contains(n),
{
    let g = order_map(units);
    if i < j {
        lemma_started_mono(g, i + 1, j);
    } else {
        lemma_started_mono(g, j + 1, i);
    }
}

/// Units of one layer never depend on each other, so they can start in
/// parallel.
pub proof fn layer_units_independent(units: Map<Seq<char>, Unit>, k: nat, n: Seq<char>, m: Seq<char>)
    requires
        startup_layer(order_map(units), k).contains(n),
        startup_layer(order_map(units), k).contains(m),
    ensures
        !order_deps(units, n).contains(m),
{
    if order_deps(units, n).contains(m) {
        dependencies_start_in_earlier_layers(units, k, n, m);
        let j = choose|j: nat| j < k && #[trigger] startup_layer(order_map(units), j).contains(m);
        startup_layers_disjoint(units, j, k, m);
    }
}

proof fn lemma_cycle_never_started(units: Map<Seq<char>, Unit>, cycle: Seq<Seq<char>>, k: nat)
    requires
        cycle.len() > 0,
        forall|j: int|
            0 <= j < cycle.len() ==> #[trigger] order_deps(units, cycle[j]).contains(
                cycle[(j + 1) % (cycle.len() as int)],
            ),
    ensures
        forall|j: int| 0 <= j < cycle.len() ==> !#[trigger] started_by(order_map(units), k).contains(cycle[j]),
    decreases k,
{
    let g = order_map(units);
    if k > 0 {
        lemma_cycle_never_started(units, cycle, (k - 1) as nat);
        assert forall|j: int| 0 <= j < cycle.len() implies !#[trigger] started_by(g, k).contains(cycle[j]) by {
            let jn = (j + 1) % (cycle.len() as int);
            let next = cycle[jn];
            assert(0 <= jn < cycle.len());
            assert(order_deps(units, cycle[j]).contains(next));
            assert(!started_by(g, (k - 1) as nat).contains(cycle[j]));
            assert(!started_by(g, (k - 1) as nat).contains(cycle[jn]));
            if g.dom().contains(cycle[j]) && deps_within(g[cycle[j]], started_by(g, (k - 1) as nat)) {
                let i = choose|i: int| 0 <= i < order_deps(units, cycle[j]).len() && order_deps(units, cycle[j])[i] == next;
                assert(g[cycle[j]] == order_deps(units, cycle[j]));
                assert(started_by(g, (k - 1) as nat).contains(g[cycle[j]][i]));
            }
        }
    }
}

/// Cycles are rejected: no unit on a cycle of the ordering graph (each unit
/// waiting for the next, the last for the first) ever starts, so the
/// startup order is an error that names it.
pub proof fn cycle_never_starts(units: Map<Seq<char>, Unit>, cycle: Seq<Seq<char>>, i: int)
    requires
        0 <= i < cycle.len(),
        forall|j: int|
            0 <= j < cycle.len() ==> #[trigger] order_deps(units, cycle[j]).contains(
                cycle[(j + 1) % (cycle.len() as int)],
            ),
    ensures
        !startable(order_map(units), cycle[i]),
{
    if startable(order_map(units), cycle[i]) {
        let k = choose|k: nat| #[trigger] started_by(order_map(units), k).contains(cycle[i]);
        lemma_cycle_never_started(units, cycle, k);
    }
}

proof fn lemma_blocked_never_started(units: Map<Seq<char>, Unit>, n: Seq<char>, d: Seq<char>, k: nat)
    requires
        order_deps(units, n).contains(d),
        !startable(order_map(units), d),
    ensures
        !started_by(order_map(units), k).contains(n),
    decreases k,
{
    let g = order_map(units);
    if k > 0 {
        lemma_blocked_never_started(units, n, d, (k - 1) as nat);
        if g.dom().contains(n) && deps_within(g[n], started_by(g, (k - 1) as nat)) {
            let i = choose|i: int| 0 <= i < order_deps(units, n).len() && order_deps(units, n)[i] == d;
            assert(g[n] == order_deps(units, n));
            assert(started_by(g, (k - 1) as nat).contains(g[n][i]));
            assert(startable(g, d));
        }
    }
}

/// A unit that waits for a unit that can never start can never start
/// either; a unit that is not loaded never starts, so neither does a unit
/// that requires one.
pub proof fn blocked_dependency_blocks(units: Map<Seq<char>, Unit>, n: Seq<char>, d: Seq<char>)
    requires
        order_deps(units, n).contains(d),
        !startable(order_map(units), d) || !units.dom().contains(d),
    ensures
        !startable(order_map(units), d),
        !startable(order_map(units), n),
{
    let g = order_map(units);
    if startable(g, d) {
        let k = choose|k: nat| #[trigger] started_by(g, k).contains(d);
        lemma_started_sub_dom(g, k);
    }
    if startable(g, n) {
        let k = choose|k: nat| #[trigger] started_by(g, k).contains(n);
        lemma_blocked_never_started(units, n, d, k);
    }
}

/// A unit starts in a later layer than every unit it requires, and than every
/// loaded unit that it wants, that it is after, or that is before it.
pub proof fn ordering_directives_order_layers(units: Map<Seq<char>, Unit>, k: nat, n: Seq<char>, d: Seq<char>)
    requires
        units.dom().finite(),
        startup_layer(order_map(units), k).contains(n),
        waits_for(units, n, d),
    ensures
        exists|j: nat| j < k && #[trigger] startup_layer(order_map(units), j).contains(d),
{
    lemma_order_deps_members(units, n, d);
    dependencies_start_in_earlier_layers(units, k, n, d);
}

/// Soft and ordering-only directives never block: a unit waits for a unit
/// that is not loaded only when it requires it.
pub proof fn unloaded_wants_and_after_do_not_block(units: Map<Seq<char>, Unit>, n: Seq<char>, d: Seq<char>)
    requires
        units.dom().finite(),
        !units.dom().contains(d),
        !units[n].unit.requires.deep_view().contains(d),
    ensures
        !order_deps(units, n).contains(d),
{
    lemma_order_deps_members(units, n, d);
}

/// The startup order depends only on which units are loaded and on their
/// `requires`, `wants`, `after` and `before` lists.
pub proof fn lemma_same_ordering(a: Map<Seq<char>, Unit>, b: Map<Seq<char>, Unit>)
    requires
        a.dom() == b.dom(),
        forall|n: Seq<char>| #[trigger] a.dom().contains(n) ==> {
            &&& a[n].unit.requires.deep_view() == b[n].unit.requires.deep_view()
            &&& a[n].unit.wants.deep_view() == b[n].unit.wants.deep_view()
            &&& a[n].unit.after.deep_view() == b[n].unit.after.deep_view()
            &&& a[n].unit.before.deep_view() == b[n].unit.before.deep_view()
        },
    ensures
        order_map(a) == order_map(b),
{
    assert forall|n: Seq<char>| #[trigger] order_map(a).dom().contains(n) implies order_map(a)[n] == order_map(b)[n] by {
        assert(before_units(a, n) =~= before_units(b, n)) by {
            assert forall|v: Seq<char>| before_units(a, n).contains(v) <==> before_units(b, n).contains(v) by {
                if a.dom().contains(v) {
                    assert(a[v].unit.before.deep_view() == b[v].unit.before.deep_view());
                }
            }
        }
        let pa = |x: Seq<char>| a.dom().contains(x);
        let pb = |x: Seq<char>| b.dom().contains(x);
        assert(pa =~= pb);
        assert(loaded_only(a[n].unit.wants.deep_view(), a) == loaded_only(b[n].unit.wants.deep_view(), b));
        assert(loaded_only(a[n].unit.after.deep_view(), a) == loaded_only(b[n].unit.after.deep_view(), b));
    }
    assert(order_map(a) =~= order_map(b));
}

/// Starting some units brings in every loaded unit that a unit brought in
/// requires or wants, and the loaded roots themselves.
pub proof fn start_set_closed(units: Map<Seq<char>, Unit>, roots: Set<Seq<char>>, n: Seq<char>, d: Seq<char>)
    requires
        start_set(dep_map(units), roots).contains(n),
        units[n].dep_names().contains(d),
        units.dom().contains(d),
    ensures
        start_set(dep_map(units), roots).contains(d),
{
    let g = dep_map(units);
    let k = choose|k: nat| #[trigger] brought_in(g, roots, k).contains(n);
    lemma_brought_in_loaded(g, roots, k);
    assert(g[n] == units[n].dep_names());
    assert(brought_in(g, roots, k + 1).contains(d));
}

/// The loaded roots are among the units their start brings in.
pub proof fn start_set_has_roots(units: Map<Seq<char>, Unit>, roots: Set<Seq<char>>, n: Seq<char>)
    requires
        roots.contains(n),
        units.dom().contains(n),
    ensures
        start_set(dep_map(units), roots).contains(n),
{
    assert(brought_in(dep_map(units), roots, 0).contains(n));
}

} // verus!
