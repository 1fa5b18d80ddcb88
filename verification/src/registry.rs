//! The registry: the process-wide authority mapping store paths to
//! stores. Callers reach every store through it; a store is created
//! lazily on first touch. The embedding application serializes access
//! (one lock around the whole registry) and does the file reading and
//! writing; the registry decides everything else.

use vstd::prelude::*;

use crate::codec::{spec_decode, CodecKind};
use crate::kvmap::ValueMap;
use crate::store::{ChangeEvent, Store};
use crate::strutil::str_eq;
use crate::value::{Value, ValueModel};
use vstd::string::StringExecFns;

verus! {

/// The mapping described by path-store pairs, a later pair overriding
/// an earlier one of the same path.
pub open spec fn store_pairs(es: Seq<(String, Store)>) -> Map<Seq<char>, Store>
    decreases es.len(),
{
    if es.len() == 0 {
        Map::empty()
    } else {
        store_pairs(es.drop_last()).insert(es.last().0@, es.last().1)
    }
}

/// The collection of stores, keyed by path. At most one store exists
/// per path.
pub struct Registry {
    stores: Vec<(String, Store)>,
}

impl View for Registry {
    type V = Map<Seq<char>, Store>;

    closed spec fn view(&self) -> Map<Seq<char>, Store> {
        store_pairs(self.stores@)
    }
}

impl Registry {
    /// Paths are pairwise distinct, every store is well formed, and
    /// every store carries the path it is filed under.
    pub closed spec fn wf(self) -> bool {
        &&& forall|i: int, j: int| 0 <= i < j < self.stores@.len()
            ==> self.stores@[i].0@ != self.stores@[j].0@
        &&& forall|i: int| 0 <= i < self.stores@.len() ==> (#[trigger] self.stores@[i].1).wf()
            && self.stores@[i].1.path_chars() == self.stores@[i].0@
    }

    /// The state of the store at a path, or the empty state a lazily
    /// created store would start with.
    pub open spec fn cache_at(self, p: Seq<char>) -> Map<Seq<char>, ValueModel> {
        if self@.contains_key(p) {
            self@[p].cache_map()
        } else {
            Map::empty()
        }
    }

    /// The defaults of the store at a path; a lazily created store has
    /// none.
    pub open spec fn defaults_at(self, p: Seq<char>) -> Option<Map<Seq<char>, ValueModel>> {
        if self@.contains_key(p) {
            self@[p].defaults_map()
        } else {
            None
        }
    }

    /// The codec the store at a path writes with.
    pub open spec fn enc_at(self, p: Seq<char>) -> CodecKind {
        if self@.contains_key(p) {
            self@[p].enc_codec()
        } else {
            CodecKind::Text
        }
    }

    /// The codec the store at a path reads with.
    pub open spec fn dec_at(self, p: Seq<char>) -> CodecKind {
        if self@.contains_key(p) {
            self@[p].dec_codec()
        } else {
            CodecKind::Text
        }
    }

    /// What every operation leaves alone at the touched path, and that
    /// nothing else was touched.
    pub open spec fn touched_only(self, prev: Registry, p: Seq<char>) -> bool {
        &&& self@.contains_key(p)
        &&& self@ == prev@.insert(p, self@[p])
        &&& self@[p].path_chars() == p
        &&& self@[p].defaults_map() == prev.defaults_at(p)
        &&& self@[p].enc_codec() == prev.enc_at(p)
        &&& self@[p].dec_codec() == prev.dec_at(p)
    }

    proof fn lemma_view(self)
        requires
            self.wf(),
        ensures
            forall|i: int| 0 <= i < self.stores@.len() ==> self@.contains_key(
                #[trigger] self.stores@[i].0@,
            ) && self@[self.stores@[i].0@] == self.stores@[i].1,
            forall|k: Seq<char>| #[trigger] self@.contains_key(k) ==> exists|i: int|
                0 <= i < self.stores@.len() && self.stores@[i].0@ == k,
    {
        self.lemma_view_rec(self.stores@);
    }

    proof fn lemma_view_rec(self, es: Seq<(String, Store)>)
        requires
            forall|i: int, j: int| 0 <= i < j < es.len() ==> es[i].0@ != es[j].0@,
        ensures
            forall|i: int| 0 <= i < es.len() ==> store_pairs(es).contains_key(
                #[trigger] es[i].0@,
            ) && store_pairs(es)[es[i].0@] == es[i].1,
            forall|k: Seq<char>| #[trigger] store_pairs(es).contains_key(k) ==> exists|i: int|
                0 <= i < es.len() && es[i].0@ == k,
        decreases es.len(),
    {
        if es.len() > 0 {
            let es0 = es.drop_last();
            self.lemma_view_rec(es0);
            assert forall|i: int| 0 <= i < es.len() implies store_pairs(es).contains_key(
                #[trigger] es[i].0@,
            ) && store_pairs(es)[es[i].0@] == es[i].1 by {
                if i < es.len() - 1 {
                    assert(es0[i] == es[i]);
                    assert(es[i].0@ != es[es.len() - 1].0@);
                }
            }
            assert forall|k: Seq<char>| #[trigger] store_pairs(es).contains_key(k)
                implies exists|i: int| 0 <= i < es.len() && es[i].0@ == k by {
                if k != es.last().0@ {
                    assert(store_pairs(es0).contains_key(k));
                    let i = choose|i: int| 0 <= i < es0.len() && es0[i].0@ == k;
                    assert(es0[i] == es[i]);
                    assert(es[i].0@ == k);
                } else {
                    assert(es[es.len() - 1].0@ == k);
                }
            }
        }
    }

    /// The position of the store at the path, if any.
    fn find(&self, path: &str) -> (r: Option<usize>)
        ensures
            match r {
                Some(i) => i < self.stores@.len() && self.stores@[i as int].0@ == path@,
                None => forall|i: int|
                    0 <= i < self.stores@.len() ==> self.stores@[i].0@ != path@,
            },
    {
        let mut i: usize = 0;
        while i < self.stores.len()
            invariant
                i <= self.stores@.len(),
                forall|j: int| 0 <= j < i ==> self.stores@[j].0@ != path@,
            decreases self.stores@.len() - i,
        {
            if str_eq(self.stores[i].0.as_str(), path) {
                return Some(i);
            }
            i = i + 1;
        }
        None
    }

    /// Take the store at the path out of the registry, if present.
    fn detach(&mut self, path: &str) -> (r: Option<(String, Store)>)
        requires
            old(self).wf(),
        ensures
            final(self).wf(),
            match r {
                Some((p, st)) => p@ == path@ && old(self)@.contains_key(path@) && st == old(
                    self,
                )@[path@] && st.wf() && st.path_chars() == path@ && final(self)@ == old(
                    self,
                )@.remove(path@),
                None => !old(self)@.contains_key(path@) && *final(self) == *old(self),
            },
    {
        proof {
            self.lemma_view();
        }
        match self.find(path) {
            Some(i) => {
                let pair = self.stores.remove(i);
                proof {
                    let old_es = old(self).stores@;
                    self.lemma_view_rec(old_es);
                    assert forall|p: int, q: int| 0 <= p < q < self.stores@.len()
                        implies self.stores@[p].0@ != self.stores@[q].0@ by {
                        let p0: int = if p < i { p } else { p + 1 };
                        let q0: int = if q < i { q } else { q + 1 };
                        assert(old_es[p0].0@ != old_es[q0].0@);
                    }
                    assert forall|a: int| 0 <= a < self.stores@.len()
                        implies (#[trigger] self.stores@[a].1).wf()
                            && self.stores@[a].1.path_chars() == self.stores@[a].0@ by {
                        let a0: int = if a < i { a } else { a + 1 };
                        assert(old_es[a0].1.wf());
                    }
                    self.lemma_view_rec(self.stores@);
                    assert forall|k: Seq<char>| #[trigger] self@.contains_key(k)
                        implies old(self)@.remove(path@).contains_key(k) by {
                        let j = choose|j: int|
                            0 <= j < self.stores@.len() && self.stores@[j].0@ == k;
                        let j0: int = if j < i { j } else { j + 1 };
                        assert(old_es[j0].0@ == k);
                        assert(j0 != i);
                    }
                    assert forall|k: Seq<char>| old(self)@.remove(path@).contains_key(k)
                        implies #[trigger] self@.contains_key(k) && self@[k] == old(
                        self,
                    )@.remove(path@)[k] by {
                        let j0 = choose|j0: int|
                            0 <= j0 < old_es.len() && old_es[j0].0@ == k;
                        assert(j0 != i);
                        let j: int = if j0 < i { j0 } else { j0 - 1 };
                        assert(self.stores@[j].0@ == k);
                        assert(self.stores@[j].1 == old_es[j0].1);
                        assert(old(self)@[k] == old_es[j0].1);
                    }
                    assert(self@ =~= old(self)@.remove(path@));
                }
                Some(pair)
            },
            None => {
                proof {
                    if old(self)@.contains_key(path@) {
                        let i = choose|i: int|
                            0 <= i < self.stores@.len() && self.stores@[i].0@ == path@;
                    }
                }
                None
            },
        }
    }

    /// File a store under a path not yet present.
    fn attach(&mut self, p: String, st: Store)
        requires
            old(self).wf(),
            !old(self)@.contains_key(p@),
            st.wf(),
            st.path_chars() == p@,
        ensures
            final(self).wf(),
            final(self)@ == old(self)@.insert(p@, st),
    {
        proof {
            self.lemma_view();
        }
        self.stores.push((p, st));
        proof {
            let old_es = old(self).stores@;
            assert forall|a: int, b: int| 0 <= a < b < self.stores@.len()
                implies self.stores@[a].0@ != self.stores@[b].0@ by {
                if b == self.stores@.len() - 1 {
                    assert(old(self)@.contains_key(old_es[a].0@));
                }
            }
            assert(self.stores@.drop_last() =~= old_es);
        }
    }

    /// The store at the path — taken out to be operated on — or the
    /// fresh empty store a first touch creates.
    fn take_or_create(&mut self, path: &str) -> (r: (String, Store))
        requires
            old(self).wf(),
        ensures
            final(self).wf(),
            !final(self)@.contains_key(path@),
            final(self)@ == old(self)@.remove(path@),
            r.0@ == path@,
            r.1.wf(),
            r.1.path_chars() == path@,
            r.1.cache_map() == old(self).cache_at(path@),
            r.1.defaults_map() == old(self).defaults_at(path@),
            r.1.enc_codec() == old(self).enc_at(path@),
            r.1.dec_codec() == old(self).dec_at(path@),
    {
        match self.detach(path) {
            Some(pair) => pair,
            None => {
                proof {
                    assert(old(self)@.remove(path@) =~= old(self)@);
                }
                let p = String::from_str(path);
                let st = Store::new(String::from_str(path));
                (p, st)
            },
        }
    }

    /// An empty registry, then one store per configured path, eagerly
    /// built from its default mapping.
    pub fn new(config: Vec<(String, ValueMap)>) -> (r: Registry)
        requires
            forall|i: int, j: int| 0 <= i < j < config@.len()
                ==> config@[i].0@ != config@[j].0@,
            forall|i: int| 0 <= i < config@.len() ==> (#[trigger] config@[i].1).wf(),
        ensures
            r.wf(),
            forall|i: int| 0 <= i < config@.len() ==> r@.contains_key(#[trigger] config@[i].0@)
                && r@[config@[i].0@].cache_map() == config@[i].1@
                && r@[config@[i].0@].defaults_map() == Some(config@[i].1@)
                && r@[config@[i].0@].path_chars() == config@[i].0@,
            forall|k: Seq<char>| #[trigger] r@.contains_key(k) ==> exists|i: int|
                0 <= i < config@.len() && config@[i].0@ == k,
    {
        let mut reg = Registry { stores: Vec::new() };
        let mut i: usize = 0;
        while i < config.len()
            invariant
                i <= config@.len(),
                forall|a: int, b: int| 0 <= a < b < config@.len()
                    ==> config@[a].0@ != config@[b].0@,
                forall|a: int| 0 <= a < config@.len() ==> (#[trigger] config@[a].1).wf(),
                reg.wf(),
                forall|a: int| 0 <= a < i ==> reg@.contains_key(#[trigger] config@[a].0@)
                    && reg@[config@[a].0@].cache_map() == config@[a].1@
                    && reg@[config@[a].0@].defaults_map() == Some(config@[a].1@)
                    && reg@[config@[a].0@].path_chars() == config@[a].0@,
                forall|k: Seq<char>| #[trigger] reg@.contains_key(k) ==> exists|a: int|
                    0 <= a < i && config@[a].0@ == k,
            decreases config@.len() - i,
        {
            let p = config[i].0.clone();
            let d = config[i].1.deep_clone();
            let st = Store::with_defaults(p.clone(), d);
            proof {
                if reg@.contains_key(p@) {
                    let a = choose|a: int| 0 <= a < i && config@[a].0@ == p@;
                }
            }
            reg.attach(p, st);
            i = i + 1;
        }
        reg
    }

    /// Whether a store already exists for the path.
    pub fn has_store(&self, path: &str) -> (r: bool)
        requires
            self.wf(),
        ensures
            r == self@.contains_key(path@),
    {
        proof {
            self.lemma_view();
            if self@.contains_key(path@) {
                let i = choose|i: int|
                    0 <= i < self.stores@.len() && self.stores@[i].0@ == path@;
            }
        }
        match self.find(path) {
            Some(_) => true,
            None => false,
        }
    }

    /// Insert or overwrite one key of the store at the path, creating
    /// the store first if the path is new. Reports the new value.
    pub fn set(&mut self, path: &str, key: String, value: Value) -> (ev: ChangeEvent)
        requires
            old(self).wf(),
        ensures
            final(self).wf(),
            final(self).touched_only(*old(self), path@),
            final(self)@[path@].cache_map() == old(self).cache_at(path@).insert(key@, value@),
            ev.path@ == path@,
            ev.key@ == key@,
            ev.value@ == value@,
    {
        let (p, mut st) = self.take_or_create(path);
        let ev = st.insert(key, value);
        let ghost removed = self@;
        self.attach(p, st);
        proof {
            assert(self@ =~= old(self)@.insert(path@, st));
        }
        ev
    }

    /// A copy of one key's value of the store at the path, creating the
    /// store first if the path is new.
    pub fn get(&mut self, path: &str, key: &str) -> (r: Option<Value>)
        requires
            old(self).wf(),
        ensures
            final(self).wf(),
            final(self).touched_only(*old(self), path@),
            final(self)@[path@].cache_map() == old(self).cache_at(path@),
            match r {
                Some(v) => old(self).cache_at(path@).contains_key(key@) && v@ == old(
                    self,
                ).cache_at(path@)[key@],
                None => !old(self).cache_at(path@).contains_key(key@),
            },
    {
        let (p, st) = self.take_or_create(path);
        let r = st.get(key);
        self.attach(p, st);
        proof {
            assert(self@ =~= old(self)@.insert(path@, st));
        }
        r
    }

    /// Whether one key is present in the store at the path, creating
    /// the store first if the path is new.
    pub fn has(&mut self, path: &str, key: &str) -> (r: bool)
        requires
            old(self).wf(),
        ensures
            final(self).wf(),
            final(self).touched_only(*old(self), path@),
            final(self)@[path@].cache_map() == old(self).cache_at(path@),
            r == old(self).cache_at(path@).contains_key(key@),
    {
        let (p, st) = self.take_or_create(path);
        let r = st.has(key);
        self.attach(p, st);
        proof {
            assert(self@ =~= old(self)@.insert(path@, st));
        }
        r
    }

    /// Remove one key of the store at the path, creating the store
    /// first if the path is new. Reports the removal when it happened.
    pub fn delete(&mut self, path: &str, key: &str) -> (r: (bool, Option<ChangeEvent>))
        requires
            old(self).wf(),
        ensures
            final(self).wf(),
            final(self).touched_only(*old(self), path@),
            final(self)@[path@].cache_map() == old(self).cache_at(path@).remove(key@),
            r.0 == old(self).cache_at(path@).contains_key(key@),
            match r.1 {
                Some(ev) => r.0 && ev.path@ == path@ && ev.key@ == key@ && ev.value@
                    == ValueModel::Null,
                None => !r.0,
            },
    {
        let (p, mut st) = self.take_or_create(path);
        let r = st.delete(key);
        self.attach(p, st);
        proof {
            assert(self@ =~= old(self)@.insert(path@, st));
        }
        r
    }

    /// Remove every key of the store at the path, creating the store
    /// first if the path is new. Reports each removed key.
    pub fn clear(&mut self, path: &str) -> (evs: Vec<ChangeEvent>)
        requires
            old(self).wf(),
        ensures
            final(self).wf(),
            final(self).touched_only(*old(self), path@),
            final(self)@[path@].cache_map() == Map::<Seq<char>, ValueModel>::empty(),
            crate::store::clear_events_ok(old(self).cache_at(path@), path@, evs@),
    {
        let (p, mut st) = self.take_or_create(path);
        let evs = st.clear();
        self.attach(p, st);
        proof {
            assert(self@ =~= old(self)@.insert(path@, st));
        }
        evs
    }

    /// Reset the store at the path to its defaults — or clear it if it
    /// has none — creating it first if the path is new. Reports each
    /// changed key.
    pub fn reset(&mut self, path: &str) -> (evs: Vec<ChangeEvent>)
        requires
            old(self).wf(),
        ensures
            final(self).wf(),
            final(self).touched_only(*old(self), path@),
            match old(self).defaults_at(path@) {
                Some(d) => final(self)@[path@].cache_map() == d && crate::store::reset_events_ok(
                    old(self).cache_at(path@),
                    d,
                    path@,
                    evs@,
                ),
                None => final(self)@[path@].cache_map() == Map::<Seq<char>, ValueModel>::empty()
                    && crate::store::clear_events_ok(old(self).cache_at(path@), path@, evs@),
            },
    {
        let (p, mut st) = self.take_or_create(path);
        let evs = st.reset();
        self.attach(p, st);
        proof {
            assert(self@ =~= old(self)@.insert(path@, st));
        }
        evs
    }

    /// A snapshot of the keys of the store at the path, creating the
    /// store first if the path is new.
    pub fn keys(&mut self, path: &str) -> (r: Vec<String>)
        requires
            old(self).wf(),
        ensures
            final(self).wf(),
            final(self).touched_only(*old(self), path@),
            final(self)@[path@].cache_map() == old(self).cache_at(path@),
            r@.len() == old(self).cache_at(path@).dom().len(),
            forall|i: int| 0 <= i < r@.len() ==> old(self).cache_at(path@).contains_key(
                #[trigger] r@[i]@,
            ),
            forall|k: Seq<char>| #[trigger] old(self).cache_at(path@).contains_key(k)
                ==> exists|i: int| 0 <= i < r@.len() && r@[i]@ == k,
    {
        let (p, st) = self.take_or_create(path);
        let r = st.keys();
        self.attach(p, st);
        proof {
            assert(self@ =~= old(self)@.insert(path@, st));
        }
        r
    }

    /// A snapshot of the values of the store at the path, creating the
    /// store first if the path is new.
    pub fn values(&mut self, path: &str) -> (r: Vec<Value>)
        requires
            old(self).wf(),
        ensures
            final(self).wf(),
            final(self).touched_only(*old(self), path@),
            final(self)@[path@].cache_map() == old(self).cache_at(path@),
            r@.len() == old(self).cache_at(path@).dom().len(),
            forall|i: int| 0 <= i < r@.len() ==> crate::kvmap::holds_value(
                old(self).cache_at(path@),
                #[trigger] r@[i]@,
            ),
            exists|ks: Seq<Seq<char>>| #[trigger] crate::kvmap::values_match(
                old(self).cache_at(path@),
                ks,
                r@,
            ),
    {
        let (p, st) = self.take_or_create(path);
        let r = st.values();
        self.attach(p, st);
        proof {
            assert(self@ =~= old(self)@.insert(path@, st));
        }
        r
    }

    /// A snapshot of the entries of the store at the path, creating the
    /// store first if the path is new.
    pub fn entries(&mut self, path: &str) -> (r: Vec<(String, Value)>)
        requires
            old(self).wf(),
        ensures
            final(self).wf(),
            final(self).touched_only(*old(self), path@),
            final(self)@[path@].cache_map() == old(self).cache_at(path@),
            r@.len() == old(self).cache_at(path@).dom().len(),
            forall|i: int| 0 <= i < r@.len() ==> old(self).cache_at(path@).contains_key(
                #[trigger] r@[i].0@,
            ) && old(self).cache_at(path@)[r@[i].0@] == r@[i].1@,
            forall|k: Seq<char>| #[trigger] old(self).cache_at(path@).contains_key(k)
                ==> exists|i: int| 0 <= i < r@.len() && r@[i].0@ == k,
    {
        let (p, st) = self.take_or_create(path);
        let r = st.entries();
        self.attach(p, st);
        proof {
            assert(self@ =~= old(self)@.insert(path@, st));
        }
        r
    }

    /// The number of keys of the store at the path, creating the store
    /// first if the path is new.
    pub fn length(&mut self, path: &str) -> (r: usize)
        requires
            old(self).wf(),
        ensures
            final(self).wf(),
            final(self).touched_only(*old(self), path@),
            final(self)@[path@].cache_map() == old(self).cache_at(path@),
            r == old(self).cache_at(path@).dom().len(),
    {
        let (p, st) = self.take_or_create(path);
        let r = st.len();
        self.attach(p, st);
        proof {
            assert(self@ =~= old(self)@.insert(path@, st));
        }
        r
    }

    /// Merge the backing file's bytes into the store at the path,
    /// creating the store first if the path is new. On malformed bytes
    /// the cache is untouched.
    pub fn load(&mut self, path: &str, bytes: &Vec<u8>) -> (r: Result<(), crate::Error>)
        requires
            old(self).wf(),
        ensures
            final(self).wf(),
            final(self).touched_only(*old(self), path@),
            match r {
                Ok(u) => spec_decode(old(self).dec_at(path@), bytes@) is Some,
                Err(e) => e == crate::Error::Deserialize && spec_decode(
                    old(self).dec_at(path@),
                    bytes@,
                ) is None,
            },
            match spec_decode(old(self).dec_at(path@), bytes@) {
                Some(m) => final(self)@[path@].cache_map() == old(self).cache_at(
                    path@,
                ).union_prefer_right(m),
                None => final(self)@[path@].cache_map() == old(self).cache_at(path@),
            },
    {
        let (p, mut st) = self.take_or_create(path);
        let r = st.load(bytes);
        self.attach(p, st);
        proof {
            assert(self@ =~= old(self)@.insert(path@, st));
        }
        r
    }

    /// Encode the store at the path for its backing file, creating the
    /// store first if the path is new. The caller writes the bytes.
    pub fn save(&mut self, path: &str) -> (r: Result<Vec<u8>, crate::Error>)
        requires
            old(self).wf(),
        ensures
            final(self).wf(),
            final(self).touched_only(*old(self), path@),
            final(self)@[path@].cache_map() == old(self).cache_at(path@),
            r matches Ok(bytes) && spec_decode(old(self).enc_at(path@), bytes@) == Some(
                old(self).cache_at(path@),
            ),
    {
        let (p, st) = self.take_or_create(path);
        let r = st.save();
        self.attach(p, st);
        proof {
            assert(self@ =~= old(self)@.insert(path@, st));
        }
        r
    }

    /// Encode every store for its backing file: the shutdown pass. The
    /// caller writes each store's bytes to its path, logging failures
    /// without stopping.
    pub fn save_all(&self) -> (r: Vec<(String, Vec<u8>)>)
        requires
            self.wf(),
        ensures
            forall|i: int, j: int| 0 <= i < j < r@.len() ==> r@[i].0@ != r@[j].0@,
            forall|i: int| 0 <= i < r@.len() ==> self@.contains_key(#[trigger] r@[i].0@)
                && spec_decode(self@[r@[i].0@].enc_codec(), r@[i].1@) == Some(
                self@[r@[i].0@].cache_map(),
            ),
            forall|k: Seq<char>| #[trigger] self@.contains_key(k) ==> exists|i: int|
                0 <= i < r@.len() && r@[i].0@ == k,
    {
        proof {
            self.lemma_view();
        }
        let mut out: Vec<(String, Vec<u8>)> = Vec::new();
        let mut i: usize = 0;
        while i < self.stores.len()
            invariant
                i <= self.stores@.len(),
                self.wf(),
                out@.len() == i as int,
                forall|a: int| 0 <= a < self.stores@.len() ==> self@.contains_key(
                    #[trigger] self.stores@[a].0@,
                ) && self@[self.stores@[a].0@] == self.stores@[a].1,
                forall|a: int| 0 <= a < i ==> out@[a].0@ == self.stores@[a].0@
                    && spec_decode(self@[out@[a].0@].enc_codec(), out@[a].1@) == Some(
                    self@[out@[a].0@].cache_map(),
                ),
            decreases self.stores@.len() - i,
        {
            let p = self.stores[i].0.clone();
            let bytes = match self.stores[i].1.save() {
                Ok(b) => b,
                Err(e) => Vec::new(),
            };
            out.push((p, bytes));
            i = i + 1;
        }
        proof {
            assert forall|k: Seq<char>| #[trigger] self@.contains_key(k)
                implies exists|i0: int| 0 <= i0 < out@.len() && out@[i0].0@ == k by {
                let i0 = choose|i0: int|
                    0 <= i0 < self.stores@.len() && self.stores@[i0].0@ == k;
                assert(out@[i0].0@ == k);
            }
            assert forall|a: int, b: int| 0 <= a < b < out@.len()
                implies out@[a].0@ != out@[b].0@ by {
                assert(self.stores@[a].0@ != self.stores@[b].0@);
            }
        }
        out
    }
}

} // verus!
