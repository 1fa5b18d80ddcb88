//! One named, file-backed key-value mapping: its cache, its optional
//! defaults, its codec, and the change events every mutation reports.

use vstd::prelude::*;

use crate::codec::{spec_decode, CodecKind};
use vstd::string::StringExecFns;
use crate::kvmap::ValueMap;
use crate::value::{Value, ValueModel};

verus! {

/// A notification that one key of one store changed: the new value, or
/// null when the key was removed. The embedding application delivers
/// these to listeners; the store only reports them.
#[derive(Debug)]
pub struct ChangeEvent {
    pub path: String,
    pub key: String,
    pub value: Value,
}

/// What a mapping holds at a key, as an optional value.
pub open spec fn map_opt(m: Map<Seq<char>, ValueModel>, k: Seq<char>) -> Option<ValueModel> {
    if m.contains_key(k) {
        Some(m[k])
    } else {
        None
    }
}

/// Whether resetting a cache to its defaults must report the key: it is
/// in play and its value changes.
pub open spec fn reset_needs_event(
    c: Map<Seq<char>, ValueModel>,
    d: Map<Seq<char>, ValueModel>,
    k: Seq<char>,
) -> bool {
    (c.contains_key(k) || d.contains_key(k)) && map_opt(c, k) != map_opt(d, k)
}

/// The value resetting reports for a key: its default, or null if it
/// has none.
pub open spec fn reset_event_value(d: Map<Seq<char>, ValueModel>, k: Seq<char>) -> ValueModel {
    if d.contains_key(k) {
        d[k]
    } else {
        ValueModel::Null
    }
}

/// What dropping every key of a cache must report: one event per
/// previously-present key, each with value null, keys not repeated.
pub open spec fn clear_events_ok(
    c: Map<Seq<char>, ValueModel>,
    path: Seq<char>,
    evs: Seq<ChangeEvent>,
) -> bool {
    &&& evs.len() == c.dom().len()
    &&& forall|i: int, j: int| 0 <= i < j < evs.len() ==> evs[i].key@ != evs[j].key@
    &&& forall|i: int| 0 <= i < evs.len() ==> evs[i].path@ == path && evs[i].value@
        == ValueModel::Null && c.contains_key(#[trigger] evs[i].key@)
    &&& forall|k: Seq<char>| #[trigger] c.contains_key(k) ==> exists|i: int|
        0 <= i < evs.len() && evs[i].key@ == k
}

/// What resetting a cache to defaults must report: one event per key
/// whose value changes, carrying the default or null, keys not repeated.
pub open spec fn reset_events_ok(
    c: Map<Seq<char>, ValueModel>,
    d: Map<Seq<char>, ValueModel>,
    path: Seq<char>,
    evs: Seq<ChangeEvent>,
) -> bool {
    &&& forall|i: int, j: int| 0 <= i < j < evs.len() ==> evs[i].key@ != evs[j].key@
    &&& forall|i: int| 0 <= i < evs.len() ==> evs[i].path@ == path && reset_needs_event(
        c,
        d,
        #[trigger] evs[i].key@,
    ) && evs[i].value@ == reset_event_value(d, evs[i].key@)
    &&& forall|k: Seq<char>| #[trigger] reset_needs_event(c, d, k) ==> exists|i: int|
        0 <= i < evs.len() && evs[i].key@ == k
}

/// One named, file-backed key-value mapping: the single source of truth
/// for one file's state. Mutating operations return the change events
/// to deliver instead of delivering them.
#[derive(Debug)]
pub struct Store {
    path: String,
    defaults: Option<ValueMap>,
    cache: ValueMap,
    serialize: CodecKind,
    deserialize: CodecKind,
}

impl Store {
    /// The cache and the defaults hold no repeated keys.
    pub closed spec fn wf(self) -> bool {
        self.cache.wf() && match self.defaults {
            Some(d) => d.wf(),
            None => true,
        }
    }

    /// The path naming this store.
    pub closed spec fn path_chars(self) -> Seq<char> {
        self.path@
    }

    /// The live key-value state.
    pub closed spec fn cache_map(self) -> Map<Seq<char>, ValueModel> {
        self.cache@
    }

    /// The baseline state `reset` restores, if one was given.
    pub closed spec fn defaults_map(self) -> Option<Map<Seq<char>, ValueModel>> {
        match self.defaults {
            Some(d) => Some(d@),
            None => None,
        }
    }

    /// The codec `save` writes with.
    pub closed spec fn enc_codec(self) -> CodecKind {
        self.serialize
    }

    /// The codec `load` reads with.
    pub closed spec fn dec_codec(self) -> CodecKind {
        self.deserialize
    }

    /// Everything but the cache: what a mutation of the state must keep.
    pub open spec fn same_config(self, other: Store) -> bool {
        self.path_chars() == other.path_chars() && self.defaults_map() == other.defaults_map()
            && self.enc_codec() == other.enc_codec() && self.dec_codec() == other.dec_codec()
    }

    /// A store with an empty cache and no defaults.
    pub fn new(path: String) -> (r: Store)
        ensures
            r.wf(),
            r.path_chars() == path@,
            r.cache_map() == Map::<Seq<char>, ValueModel>::empty(),
            r.defaults_map() == Option::<Map<Seq<char>, ValueModel>>::None,
            r.enc_codec() == CodecKind::Text,
            r.dec_codec() == CodecKind::Text,
    {
        Store {
            path,
            defaults: None,
            cache: ValueMap::new(),
            serialize: CodecKind::Text,
            deserialize: CodecKind::Text,
        }
    }

    /// A store whose cache starts as a copy of the given defaults, kept
    /// for `reset`.
    pub fn with_defaults(path: String, defaults: ValueMap) -> (r: Store)
        requires
            defaults.wf(),
        ensures
            r.wf(),
            r.path_chars() == path@,
            r.cache_map() == defaults@,
            r.defaults_map() == Some(defaults@),
            r.enc_codec() == CodecKind::Text,
            r.dec_codec() == CodecKind::Text,
    {
        let cache = defaults.deep_clone();
        Store {
            path,
            defaults: Some(defaults),
            cache,
            serialize: CodecKind::Text,
            deserialize: CodecKind::Text,
        }
    }

    /// Insert or overwrite one key; always report the new value.
    pub fn insert(&mut self, key: String, value: Value) -> (ev: ChangeEvent)
        requires
            old(self).wf(),
        ensures
            final(self).wf(),
            final(self).same_config(*old(self)),
            final(self).cache_map() == old(self).cache_map().insert(key@, value@),
            ev.path@ == old(self).path_chars(),
            ev.key@ == key@,
            ev.value@ == value@,
    {
        let ev = ChangeEvent {
            path: self.path.clone(),
            key: key.clone(),
            value: value.deep_clone(),
        };
        self.cache.insert(key, value);
        ev
    }

    /// A copy of the key's value, if present. No side effects.
    pub fn get(&self, key: &str) -> (r: Option<Value>)
        requires
            self.wf(),
        ensures
            match r {
                Some(v) => self.cache_map().contains_key(key@) && v@ == self.cache_map()[key@],
                None => !self.cache_map().contains_key(key@),
            },
    {
        match self.cache.get(key) {
            Some(v) => Some(v.deep_clone()),
            None => None,
        }
    }

    /// Whether the key is present. No side effects.
    pub fn has(&self, key: &str) -> (r: bool)
        requires
            self.wf(),
        ensures
            r == self.cache_map().contains_key(key@),
    {
        self.cache.contains_key(key)
    }

    /// Remove one key. Report the removal — with value null — exactly
    /// when the key was present.
    pub fn delete(&mut self, key: &str) -> (r: (bool, Option<ChangeEvent>))
        requires
            old(self).wf(),
        ensures
            final(self).wf(),
            final(self).same_config(*old(self)),
            final(self).cache_map() == old(self).cache_map().remove(key@),
            r.0 == old(self).cache_map().contains_key(key@),
            match r.1 {
                Some(ev) => r.0 && ev.path@ == old(self).path_chars() && ev.key@ == key@
                    && ev.value@ == ValueModel::Null,
                None => !r.0,
            },
    {
        let present = self.cache.remove(key);
        if present {
            let ev = ChangeEvent {
                path: self.path.clone(),
                key: key_to_string(key),
                value: Value::Null,
            };
            (true, Some(ev))
        } else {
            (false, None)
        }
    }

    /// Remove every key. Report each previously-present key once, with
    /// value null, in no particular order.
    pub fn clear(&mut self) -> (evs: Vec<ChangeEvent>)
        requires
            old(self).wf(),
        ensures
            final(self).wf(),
            final(self).same_config(*old(self)),
            final(self).cache_map() == Map::<Seq<char>, ValueModel>::empty(),
            clear_events_ok(old(self).cache_map(), old(self).path_chars(), evs@),
    {
        let keys = self.cache.keys();
        self.cache.clear();
        let mut evs: Vec<ChangeEvent> = Vec::new();
        let mut i: usize = 0;
        while i < keys.len()
            invariant
                i <= keys@.len(),
                evs@.len() == i as int,
                forall|j: int| 0 <= j < i ==> evs@[j].key@ == keys@[j]@
                    && evs@[j].path@ == self.path@ && evs@[j].value@ == ValueModel::Null,
            decreases keys@.len() - i,
        {
            evs.push(ChangeEvent {
                path: self.path.clone(),
                key: keys[i].clone(),
                value: Value::Null,
            });
            i = i + 1;
        }
        proof {
            assert forall|k: Seq<char>| #[trigger] old(self).cache_map().contains_key(k)
                implies exists|j: int| 0 <= j < evs@.len() && evs@[j].key@ == k by {
                let j = choose|j: int| 0 <= j < keys@.len() && keys@[j]@ == k;
                assert(evs@[j].key@ == k);
            }
            assert forall|a: int| 0 <= a < evs@.len() implies old(self).cache_map().contains_key(
                #[trigger] evs@[a].key@,
            ) by {
                assert(old(self).cache_map().contains_key(keys@[a]@));
            }
            assert forall|a: int, b: int| 0 <= a < b < evs@.len()
                implies evs@[a].key@ != evs@[b].key@ by {
                assert(keys@[a]@ != keys@[b]@);
            }
            assert forall|a: int| 0 <= a < evs@.len() implies evs@[a].path@ == old(
                self,
            ).path_chars() && evs@[a].value@ == ValueModel::Null by {
                assert(evs@[a].key@ == keys@[a]@);
            }
        }
        evs
    }
    /// Restore the defaults, or clear if none were given. Report every
    /// key whose value changes, with its default or null.
    pub fn reset(&mut self) -> (evs: Vec<ChangeEvent>)
        requires
            old(self).wf(),
        ensures
            final(self).wf(),
            final(self).same_config(*old(self)),
            match old(self).defaults_map() {
                Some(d) => final(self).cache_map() == d && reset_events_ok(
                    old(self).cache_map(),
                    d,
                    old(self).path_chars(),
                    evs@,
                ),
                None => final(self).cache_map() == Map::<Seq<char>, ValueModel>::empty()
                    && clear_events_ok(old(self).cache_map(), old(self).path_chars(), evs@),
            },
    {
        let d = match &self.defaults {
            Some(d) => d.deep_clone(),
            None => {
                return self.clear();
            },
        };
        let ghost dm = d@;
        let ghost cm = self.cache@;
        let olds = self.cache.entries();
        let dents = d.entries();
        let mut evs: Vec<ChangeEvent> = Vec::new();
        let mut i: usize = 0;
        while i < olds.len()
            invariant
                i <= olds@.len(),
                self == old(self),
                self.wf(),
                d.wf(),
                d@ == dm,
                self.cache@ == cm,
                forall|a: int, b: int| 0 <= a < b < olds@.len() ==> olds@[a].0@ != olds@[b].0@,
                forall|a: int| 0 <= a < olds@.len() ==> cm.contains_key(#[trigger] olds@[a].0@)
                    && cm[olds@[a].0@] == olds@[a].1@,
                forall|k: Seq<char>| #[trigger] cm.contains_key(k) ==> exists|a: int|
                    0 <= a < olds@.len() && olds@[a].0@ == k,
                forall|a: int, b: int| 0 <= a < b < evs@.len() ==> evs@[a].key@ != evs@[b].key@,
                forall|a: int| 0 <= a < evs@.len() ==> evs@[a].path@ == self.path@
                    && reset_needs_event(cm, dm, #[trigger] evs@[a].key@) && evs@[a].value@
                    == reset_event_value(dm, evs@[a].key@),
                forall|a: int| 0 <= a < evs@.len() ==> exists|b: int|
                    0 <= b < i && olds@[b].0@ == #[trigger] evs@[a].key@,
                forall|b: int| 0 <= b < i && reset_needs_event(cm, dm, #[trigger] olds@[b].0@)
                    ==> exists|a: int| 0 <= a < evs@.len() && evs@[a].key@ == olds@[b].0@,
            decreases olds@.len() - i,
        {
            let k = &olds[i].0;
            let v = &olds[i].1;
            let ghost evs_before = evs@;
            let ghost kk = olds@[i as int].0@;
            match d.get(k.as_str()) {
                Some(dv) => {
                    if !crate::value::value_eq(v, dv) {
                        evs.push(ChangeEvent {
                            path: self.path.clone(),
                            key: k.clone(),
                            value: dv.deep_clone(),
                        });
                        proof {
                            assert(map_opt(cm, kk) == Some(olds@[i as int].1@));
                            assert(map_opt(dm, kk) == Some(dm[kk]));
                            assert(reset_needs_event(cm, dm, kk));
                            assert(evs@[evs@.len() - 1].value@ == reset_event_value(dm, kk));
                        }
                    } else {
                        proof {
                            assert(map_opt(cm, kk) == Some(olds@[i as int].1@));
                            assert(map_opt(dm, kk) == Some(dm[kk]));
                            assert(!reset_needs_event(cm, dm, kk));
                        }
                    }
                },
                None => {
                    evs.push(ChangeEvent {
                        path: self.path.clone(),
                        key: k.clone(),
                        value: Value::Null,
                    });
                    proof {
                        assert(map_opt(cm, kk) == Some(olds@[i as int].1@));
                        assert(map_opt(dm, kk) == Option::<ValueModel>::None);
                        assert(reset_needs_event(cm, dm, kk));
                        assert(evs@[evs@.len() - 1].value@ == reset_event_value(dm, kk));
                    }
                },
            }
            proof {
                assert forall|a: int| 0 <= a < evs@.len() implies exists|b: int|
                    0 <= b < i + 1 && olds@[b].0@ == #[trigger] evs@[a].key@ by {
                    if a < evs_before.len() {
                        let b = choose|b: int|
                            0 <= b < i && olds@[b].0@ == evs_before[a].key@;
                        assert(olds@[b].0@ == evs@[a].key@);
                    } else {
                        assert(olds@[i as int].0@ == evs@[a].key@);
                    }
                }
                assert forall|a: int, b: int| 0 <= a < b < evs@.len()
                    implies evs@[a].key@ != evs@[b].key@ by {
                    if b >= evs_before.len() {
                        let b0 = choose|b0: int|
                            0 <= b0 < i && olds@[b0].0@ == evs_before[a].key@;
                        assert(olds@[b0].0@ != olds@[i as int].0@);
                    }
                }
                assert forall|b: int| 0 <= b < i + 1 && reset_needs_event(
                    cm,
                    dm,
                    #[trigger] olds@[b].0@,
                ) implies exists|a: int|
                    0 <= a < evs@.len() && evs@[a].key@ == olds@[b].0@ by {
                    if b < i {
                        let a = choose|a: int|
                            0 <= a < evs_before.len() && evs_before[a].key@ == olds@[b].0@;
                        assert(evs@[a].key@ == olds@[b].0@);
                    } else {
                        assert(evs@[evs@.len() - 1].key@ == kk);
                    }
                }
            }
            i = i + 1;
        }
        let ghost evs_mid = evs@;
        let mut j: usize = 0;
        while j < dents.len()
            invariant
                j <= dents@.len(),
                self == old(self),
                self.wf(),
                d.wf(),
                d@ == dm,
                self.cache@ == cm,
                forall|a: int, b: int| 0 <= a < b < dents@.len() ==> dents@[a].0@ != dents@[b].0@,
                forall|a: int| 0 <= a < dents@.len() ==> dm.contains_key(#[trigger] dents@[a].0@)
                    && dm[dents@[a].0@] == dents@[a].1@,
                forall|k: Seq<char>| #[trigger] dm.contains_key(k) ==> exists|a: int|
                    0 <= a < dents@.len() && dents@[a].0@ == k,
                forall|a: int, b: int| 0 <= a < b < evs@.len() ==> evs@[a].key@ != evs@[b].key@,
                forall|a: int| 0 <= a < evs@.len() ==> evs@[a].path@ == self.path@
                    && reset_needs_event(cm, dm, #[trigger] evs@[a].key@) && evs@[a].value@
                    == reset_event_value(dm, evs@[a].key@),
                evs@.len() >= evs_mid.len(),
                forall|a: int| 0 <= a < evs_mid.len() ==> evs@[a] == evs_mid[a],
                forall|a: int| 0 <= a < evs_mid.len()
                    ==> cm.contains_key(#[trigger] evs_mid[a].key@),
                forall|k: Seq<char>| #[trigger] reset_needs_event(cm, dm, k) && cm.contains_key(k)
                    ==> exists|a: int| 0 <= a < evs_mid.len() && evs_mid[a].key@ == k,
                forall|a: int| evs_mid.len() <= a < evs@.len() ==> !cm.contains_key(
                    #[trigger] evs@[a].key@,
                ) && exists|b: int| 0 <= b < j && dents@[b].0@ == evs@[a].key@,
                forall|b: int| 0 <= b < j && reset_needs_event(cm, dm, #[trigger] dents@[b].0@)
                    && !cm.contains_key(dents@[b].0@) ==> exists|a: int|
                    0 <= a < evs@.len() && evs@[a].key@ == dents@[b].0@,
            decreases dents@.len() - j,
        {
            let k = &dents[j].0;
            let ghost evs_before = evs@;
            let ghost kk = dents@[j as int].0@;
            if !self.cache.contains_key(k.as_str()) {
                evs.push(ChangeEvent {
                    path: self.path.clone(),
                    key: k.clone(),
                    value: dents[j].1.deep_clone(),
                });
                proof {
                    assert(map_opt(cm, kk) == Option::<ValueModel>::None);
                    assert(map_opt(dm, kk) == Some(dm[kk]));
                    assert(reset_needs_event(cm, dm, kk));
                    assert(evs@[evs@.len() - 1].value@ == reset_event_value(dm, kk));
                    assert forall|a: int, b: int| 0 <= a < b < evs@.len()
                        implies evs@[a].key@ != evs@[b].key@ by {
                        if b >= evs_before.len() {
                            if a < evs_mid.len() {
                                assert(cm.contains_key(evs_mid[a].key@));
                            } else {
                                let b0 = choose|b0: int|
                                    0 <= b0 < j && dents@[b0].0@ == evs_before[a].key@;
                                assert(dents@[b0].0@ != dents@[j as int].0@);
                            }
                        }
                    }
                }
            }
            proof {
                assert forall|a: int| evs_mid.len() <= a < evs@.len() implies !cm.contains_key(
                    #[trigger] evs@[a].key@,
                ) && exists|b: int| 0 <= b < j + 1 && dents@[b].0@ == evs@[a].key@ by {
                    if a < evs_before.len() {
                        assert(!cm.contains_key(evs_before[a].key@));
                        let b0 = choose|b0: int|
                            0 <= b0 < j && dents@[b0].0@ == evs_before[a].key@;
                        assert(dents@[b0].0@ == evs@[a].key@);
                    } else {
                        assert(evs@[a].key@ == kk);
                        assert(dents@[j as int].0@ == evs@[a].key@);
                    }
                }
                assert forall|b: int| 0 <= b < j + 1 && reset_needs_event(
                    cm,
                    dm,
                    #[trigger] dents@[b].0@,
                ) && !cm.contains_key(dents@[b].0@) implies exists|a: int|
                    0 <= a < evs@.len() && evs@[a].key@ == dents@[b].0@ by {
                    if b < j {
                        let a = choose|a: int|
                            0 <= a < evs_before.len() && evs_before[a].key@ == dents@[b].0@;
                        assert(evs@[a].key@ == dents@[b].0@);
                    } else {
                        assert(evs@[evs@.len() - 1].key@ == kk);
                    }
                }
            }
            j = j + 1;
        }
        self.cache = d;
        proof {
            assert forall|k: Seq<char>| #[trigger] reset_needs_event(cm, dm, k)
                implies exists|a: int| 0 <= a < evs@.len() && evs@[a].key@ == k by {
                if cm.contains_key(k) {
                    let a = choose|a: int| 0 <= a < evs_mid.len() && evs_mid[a].key@ == k;
                    assert(evs@[a].key@ == k);
                } else {
                    assert(dm.contains_key(k));
                    let b = choose|b: int| 0 <= b < dents@.len() && dents@[b].0@ == k;
                    let a = choose|a: int|
                        0 <= a < evs@.len() && evs@[a].key@ == dents@[b].0@;
                    assert(evs@[a].key@ == k);
                }
            }
        }
        evs
    }


    /// A snapshot of the keys, each exactly once, order unspecified.
    pub fn keys(&self) -> (r: Vec<String>)
        requires
            self.wf(),
        ensures
            r@.len() == self.cache_map().dom().len(),
            forall|i: int, j: int| 0 <= i < j < r@.len() ==> r@[i]@ != r@[j]@,
            forall|i: int| 0 <= i < r@.len() ==> self.cache_map().contains_key(#[trigger] r@[i]@),
            forall|k: Seq<char>| #[trigger] self.cache_map().contains_key(k) ==> exists|i: int|
                0 <= i < r@.len() && r@[i]@ == k,
    {
        self.cache.keys()
    }

    /// A snapshot of the values, one per key, order unspecified.
    pub fn values(&self) -> (r: Vec<Value>)
        requires
            self.wf(),
        ensures
            r@.len() == self.cache_map().dom().len(),
            forall|i: int| 0 <= i < r@.len() ==> crate::kvmap::holds_value(
                self.cache_map(),
                #[trigger] r@[i]@,
            ),
            exists|ks: Seq<Seq<char>>| #[trigger] crate::kvmap::values_match(
                self.cache_map(),
                ks,
                r@,
            ),
    {
        self.cache.values()
    }

    /// A snapshot of the entries: each key once with its value.
    pub fn entries(&self) -> (r: Vec<(String, Value)>)
        requires
            self.wf(),
        ensures
            r@.len() == self.cache_map().dom().len(),
            forall|i: int, j: int| 0 <= i < j < r@.len() ==> r@[i].0@ != r@[j].0@,
            forall|i: int| 0 <= i < r@.len() ==> self.cache_map().contains_key(
                #[trigger] r@[i].0@,
            ) && self.cache_map()[r@[i].0@] == r@[i].1@,
            forall|k: Seq<char>| #[trigger] self.cache_map().contains_key(k) ==> exists|i: int|
                0 <= i < r@.len() && r@[i].0@ == k,
    {
        self.cache.entries()
    }

    /// The number of keys.
    pub fn len(&self) -> (r: usize)
        requires
            self.wf(),
        ensures
            r == self.cache_map().dom().len(),
    {
        self.cache.len()
    }

    /// Whether no key is present.
    pub fn is_empty(&self) -> (r: bool)
        requires
            self.wf(),
        ensures
            r == (self.cache_map().dom() =~= Set::<Seq<char>>::empty()),
    {
        self.cache.is_empty()
    }

    /// Encode the cache for the backing file. The bytes decode, under
    /// the store's codec, to exactly the cache.
    pub fn save(&self) -> (r: Result<Vec<u8>, crate::Error>)
        requires
            self.wf(),
        ensures
            r matches Ok(bytes) && spec_decode(self.enc_codec(), bytes@) == Some(
                self.cache_map(),
            ),
    {
        Ok(self.cache.encode(self.serialize))
    }

    /// Merge the backing file's bytes into the cache: decoded keys win,
    /// keys only in memory are kept. On malformed bytes, fail and leave
    /// the cache untouched.
    pub fn load(&mut self, bytes: &Vec<u8>) -> (r: Result<(), crate::Error>)
        requires
            old(self).wf(),
        ensures
            final(self).wf(),
            final(self).same_config(*old(self)),
            match r {
                Ok(u) => spec_decode(old(self).dec_codec(), bytes@) is Some,
                Err(e) => e == crate::Error::Deserialize && spec_decode(
                    old(self).dec_codec(),
                    bytes@,
                ) is None,
            },
            match spec_decode(old(self).dec_codec(), bytes@) {
                Some(m) => final(self).cache_map() == old(
                    self,
                ).cache_map().union_prefer_right(m),
                None => final(self).cache_map() == old(self).cache_map(),
            },
    {
        match ValueMap::decode(self.deserialize, bytes) {
            Some(m) => {
                self.cache.merge_from(&m);
                Ok(())
            },
            None => Err(crate::Error::Deserialize),
        }
    }
}

/// An owned copy of a borrowed key, for the events.
fn key_to_string(key: &str) -> (r: String)
    ensures
        r@ == key@,
{
    String::from_str(key)
}

/// Relies on `dunce::simplified`: the result is the given path itself,
/// or, where the platform strips a verbatim prefix, the path with its
/// first four characters removed.
#[verifier::external_body]
fn simplify_path(p: &str) -> (r: String)
    ensures
        r@ == p@ || (p@.len() >= 4 && r@ == p@.subrange(4, p@.len() as int)),
{
    let simplified = dunce::simplified(std::path::Path::new(p));
    match simplified.to_str() {
        Some(s) => s.to_string(),
        None => p.to_string(),
    }
}

/// Builds a [`Store`]: its path, its optional defaults, and the codec
/// for each direction.
pub struct StoreBuilder {
    path: String,
    defaults: Option<ValueMap>,
    cache: ValueMap,
    serialize: CodecKind,
    deserialize: CodecKind,
}

impl StoreBuilder {
    /// The cache and the defaults hold no repeated keys.
    pub closed spec fn wf(self) -> bool {
        self.cache.wf() && match self.defaults {
            Some(d) => d.wf(),
            None => true,
        }
    }

    /// The path the store will be named by.
    pub closed spec fn path_chars(self) -> Seq<char> {
        self.path@
    }

    /// The state the store will start with.
    pub closed spec fn cache_map(self) -> Map<Seq<char>, ValueModel> {
        self.cache@
    }

    /// The defaults the store will keep for `reset`, if any.
    pub closed spec fn defaults_map(self) -> Option<Map<Seq<char>, ValueModel>> {
        match self.defaults {
            Some(d) => Some(d@),
            None => None,
        }
    }

    /// The codec the store will write with.
    pub closed spec fn enc_codec(self) -> CodecKind {
        self.serialize
    }

    /// The codec the store will read with.
    pub closed spec fn dec_codec(self) -> CodecKind {
        self.deserialize
    }

    /// A builder for the path, simplified as the platform wants it.
    pub fn new(path: &str) -> (r: StoreBuilder)
        ensures
            r.wf(),
            r.path_chars() == path@ || (path@.len() >= 4 && r.path_chars() == path@.subrange(
                4,
                path@.len() as int,
            )),
            r.cache_map() == Map::<Seq<char>, ValueModel>::empty(),
            r.defaults_map() == Option::<Map<Seq<char>, ValueModel>>::None,
            r.enc_codec() == CodecKind::Text,
            r.dec_codec() == CodecKind::Text,
    {
        StoreBuilder {
            path: simplify_path(path),
            defaults: None,
            cache: ValueMap::new(),
            serialize: CodecKind::Text,
            deserialize: CodecKind::Text,
        }
    }

    /// Use the given mapping as the defaults and as the starting state.
    pub fn defaults(self, defaults: ValueMap) -> (r: StoreBuilder)
        requires
            defaults.wf(),
        ensures
            r.wf(),
            r.path_chars() == self.path_chars(),
            r.cache_map() == defaults@,
            r.defaults_map() == Some(defaults@),
            r.enc_codec() == self.enc_codec(),
            r.dec_codec() == self.dec_codec(),
    {
        let cache = defaults.deep_clone();
        StoreBuilder { defaults: Some(defaults), cache, ..self }
    }

    /// Add one default key-value pair, to the starting state and to the
    /// defaults kept for `reset`.
    pub fn default(self, key: String, value: Value) -> (r: StoreBuilder)
        requires
            self.wf(),
        ensures
            r.wf(),
            r.path_chars() == self.path_chars(),
            r.cache_map() == self.cache_map().insert(key@, value@),
            r.defaults_map() == Some(
                match self.defaults_map() {
                    Some(d) => d.insert(key@, value@),
                    None => Map::<Seq<char>, ValueModel>::empty().insert(key@, value@),
                },
            ),
            r.enc_codec() == self.enc_codec(),
            r.dec_codec() == self.dec_codec(),
    {
        let mut cache = self.cache;
        cache.insert(key.clone(), value.deep_clone());
        let mut d = match self.defaults {
            Some(d) => d,
            None => ValueMap::new(),
        };
        d.insert(key, value);
        StoreBuilder { defaults: Some(d), cache, path: self.path, serialize: self.serialize,
            deserialize: self.deserialize }
    }

    /// Choose the codec the store writes with.
    pub fn serialize(self, codec: CodecKind) -> (r: StoreBuilder)
        ensures
            r.wf() == self.wf(),
            r.path_chars() == self.path_chars(),
            r.cache_map() == self.cache_map(),
            r.defaults_map() == self.defaults_map(),
            r.enc_codec() == codec,
            r.dec_codec() == self.dec_codec(),
    {
        StoreBuilder { serialize: codec, ..self }
    }

    /// Choose the codec the store reads with.
    pub fn deserialize(self, codec: CodecKind) -> (r: StoreBuilder)
        ensures
            r.wf() == self.wf(),
            r.path_chars() == self.path_chars(),
            r.cache_map() == self.cache_map(),
            r.defaults_map() == self.defaults_map(),
            r.enc_codec() == self.enc_codec(),
            r.dec_codec() == codec,
    {
        StoreBuilder { deserialize: codec, ..self }
    }

    /// The store this builder describes.
    pub fn build(self) -> (r: Store)
        requires
            self.wf(),
        ensures
            r.wf(),
            r.path_chars() == self.path_chars(),
            r.cache_map() == self.cache_map(),
            r.defaults_map() == self.defaults_map(),
            r.enc_codec() == self.enc_codec(),
            r.dec_codec() == self.dec_codec(),
    {
        Store {
            path: self.path,
            defaults: self.defaults,
            cache: self.cache,
            serialize: self.serialize,
            deserialize: self.deserialize,
        }
    }
}

} // verus!
