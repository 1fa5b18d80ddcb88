//! The in-memory cache of a store: a string-keyed mapping of values
//! with unique keys and no meaningful order.

use vstd::prelude::*;

use crate::codec::{decode_map_bytes, encode_map_bytes, spec_decode, CodecKind};
use crate::strutil::str_eq;
use crate::value::{pairs_map, lemma_pairs_map, lemma_pairs_map_push, lemma_obj_model, Value,
    ValueModel};

verus! {

/// Whether some key of the mapping is bound to the given value.
pub open spec fn holds_value(m: Map<Seq<char>, ValueModel>, v: ValueModel) -> bool {
    exists|k: Seq<char>| #[trigger] m.contains_key(k) && m[k] == v
}

/// Whether the values are exactly the mapping's values: each paired
/// with its own key, every key paired once.
pub open spec fn values_match(
    m: Map<Seq<char>, ValueModel>,
    ks: Seq<Seq<char>>,
    vs: Seq<Value>,
) -> bool {
    &&& ks.len() == vs.len()
    &&& forall|i: int, j: int| 0 <= i < j < ks.len() ==> ks[i] != ks[j]
    &&& forall|i: int| 0 <= i < ks.len() ==> m.contains_key(#[trigger] ks[i]) && m[ks[i]]
        == vs[i]@
    &&& forall|k: Seq<char>| #[trigger] m.contains_key(k) ==> exists|i: int|
        0 <= i < ks.len() && ks[i] == k
}

/// A string-keyed mapping of values. One of these is the live state of a
/// store; another may hold its defaults. Keys are unique; iteration
/// order carries no meaning.
#[derive(Debug)]
pub struct ValueMap {
    entries: Vec<(String, Value)>,
}

impl View for ValueMap {
    type V = Map<Seq<char>, ValueModel>;

    closed spec fn view(&self) -> Map<Seq<char>, ValueModel> {
        pairs_map(Value::obj_model(self.entries@))
    }
}

impl ValueMap {
    /// Keys are pairwise distinct.
    pub closed spec fn wf(self) -> bool {
        forall|i: int, j: int| 0 <= i < j < self.entries@.len()
            ==> self.entries@[i].0@ != self.entries@[j].0@
    }

    /// The pairwise-distinct-key condition, restated over the models of
    /// the entries so the characterization lemma applies.
    proof fn lemma_wf_models(self)
        requires
            self.wf(),
        ensures
            forall|i: int, j: int|
                0 <= i < j < Value::obj_model(self.entries@).len()
                    ==> Value::obj_model(self.entries@)[i].0
                        != Value::obj_model(self.entries@)[j].0,
            Value::obj_model(self.entries@).len() == self.entries@.len(),
            forall|i: int| 0 <= i < self.entries@.len()
                ==> Value::obj_model(self.entries@)[i]
                    == (self.entries@[i].0@, self.entries@[i].1@),
    {
        lemma_obj_model(self.entries@);
    }

    /// The full picture a well-formed cache gives its callers: the view
    /// holds exactly the entry keys, each bound to its entry's value.
    proof fn lemma_view(self)
        requires
            self.wf(),
        ensures
            forall|i: int| 0 <= i < self.entries@.len()
                ==> self@.contains_key(#[trigger] self.entries@[i].0@)
                    && self@[self.entries@[i].0@] == self.entries@[i].1@,
            forall|k: Seq<char>| #[trigger] self@.contains_key(k)
                ==> exists|i: int| 0 <= i < self.entries@.len() && self.entries@[i].0@ == k,
            self@.dom().finite(),
            self@.dom().len() == self.entries@.len(),
    {
        let ps = Value::obj_model(self.entries@);
        self.lemma_wf_models();
        lemma_pairs_map(ps);
        assert forall|k: Seq<char>| #[trigger] self@.contains_key(k)
            implies exists|i: int|
                0 <= i < self.entries@.len() && self.entries@[i].0@ == k by {
            let i = choose|i: int| 0 <= i < ps.len() && ps[i].0 == k;
            assert(self.entries@[i].0@ == k);
        }
        assert forall|i: int| 0 <= i < self.entries@.len()
            implies self@.contains_key(#[trigger] self.entries@[i].0@)
                && self@[self.entries@[i].0@] == self.entries@[i].1@ by {
            assert(ps[i].0 == self.entries@[i].0@);
            assert(ps[i].1 == self.entries@[i].1@);
            assert(pairs_map(ps).contains_key(ps[i].0) && pairs_map(ps)[ps[i].0] == ps[i].1);
        }
    }

    /// An empty cache.
    pub fn new() -> (r: ValueMap)
        ensures
            r@ == Map::<Seq<char>, ValueModel>::empty(),
            r.wf(),
    {
        let r = ValueMap { entries: Vec::new() };
        proof {
            lemma_obj_model(r.entries@);
        }
        r
    }

    /// The position of the entry holding the key, if any.
    fn find(&self, key: &str) -> (r: Option<usize>)
        ensures
            match r {
                Some(i) => i < self.entries@.len() && self.entries@[i as int].0@ == key@,
                None => forall|i: int|
                    0 <= i < self.entries@.len() ==> self.entries@[i].0@ != key@,
            },
    {
        let mut i: usize = 0;
        while i < self.entries.len()
            invariant
                i <= self.entries@.len(),
                forall|j: int| 0 <= j < i ==> self.entries@[j].0@ != key@,
            decreases self.entries@.len() - i,
        {
            if str_eq(self.entries[i].0.as_str(), key) {
                return Some(i);
            }
            i = i + 1;
        }
        None
    }

    /// Whether the key is present.
    pub fn contains_key(&self, key: &str) -> (r: bool)
        requires
            self.wf(),
        ensures
            r == self@.contains_key(key@),
    {
        proof {
            self.lemma_view();
        }
        match self.find(key) {
            Some(_) => true,
            None => {
                proof {
                    if self@.contains_key(key@) {
                        let i = choose|i: int|
                            0 <= i < self.entries@.len() && self.entries@[i].0@ == key@;
                    }
                }
                false
            },
        }
    }

    /// A borrow of the key's value, if present.
    pub fn get(&self, key: &str) -> (r: Option<&Value>)
        requires
            self.wf(),
        ensures
            match r {
                Some(v) => self@.contains_key(key@) && v@ == self@[key@],
                None => !self@.contains_key(key@),
            },
    {
        proof {
            self.lemma_view();
        }
        match self.find(key) {
            Some(i) => Some(&self.entries[i].1),
            None => {
                proof {
                    if self@.contains_key(key@) {
                        let i = choose|i: int|
                            0 <= i < self.entries@.len() && self.entries@[i].0@ == key@;
                    }
                }
                None
            },
        }
    }

    /// Insert or overwrite one key.
    pub fn insert(&mut self, key: String, value: Value)
        requires
            old(self).wf(),
        ensures
            final(self).wf(),
            final(self)@ == old(self)@.insert(key@, value@),
    {
        let had = self.remove(key.as_str());
        let ghost mid = *self;
        proof {
            self.lemma_view();
            assert forall|j: int| 0 <= j < self.entries@.len()
                implies self.entries@[j].0@ != key@ by {
                assert(self@.contains_key(self.entries@[j].0@));
            }
        }
        self.entries.push((key, value));
        proof {
            let mid_ps = Value::obj_model(mid.entries@);
            lemma_obj_model(mid.entries@);
            lemma_obj_model(self.entries@);
            assert(Value::obj_model(self.entries@) =~= mid_ps.push((key@, value@)));
            lemma_pairs_map_push(mid_ps, (key@, value@));
            assert(self@ =~= old(self)@.insert(key@, value@));
        }
    }

    /// Remove one key; report whether it was present.
    pub fn remove(&mut self, key: &str) -> (r: bool)
        requires
            old(self).wf(),
        ensures
            final(self).wf(),
            final(self)@ == old(self)@.remove(key@),
            r == old(self)@.contains_key(key@),
    {
        proof {
            self.lemma_view();
            self.lemma_wf_models();
        }
        match self.find(key) {
            Some(i) => {
                self.entries.remove(i);
                proof {
                    let old_es = old(self).entries@;
                    let old_ps = Value::obj_model(old_es);
                    lemma_obj_model(old_es);
                    lemma_obj_model(self.entries@);
                    assert forall|p: int, q: int| 0 <= p < q < self.entries@.len()
                        implies self.entries@[p].0@ != self.entries@[q].0@ by {
                        let p0: int = if p < i { p } else { p + 1 };
                        let q0: int = if q < i { q } else { q + 1 };
                        assert(old_es[p0].0@ != old_es[q0].0@);
                    }
                    self.lemma_wf_models();
                    self.lemma_view();
                    lemma_pairs_map(old_ps);
                    assert forall|k: Seq<char>| #[trigger] self@.contains_key(k)
                        implies old(self)@.remove(key@).contains_key(k) by {
                        let j = choose|j: int|
                            0 <= j < self.entries@.len() && self.entries@[j].0@ == k;
                        let j0: int = if j < i { j } else { j + 1 };
                        assert(old_es[j0].0@ == k);
                        assert(j0 != i);
                    }
                    assert forall|k: Seq<char>| old(self)@.remove(key@).contains_key(k)
                        implies #[trigger] self@.contains_key(k)
                            && self@[k] == old(self)@.remove(key@)[k] by {
                        let j0 = choose|j0: int|
                            0 <= j0 < old_es.len() && old_es[j0].0@ == k;
                        assert(j0 != i);
                        let j: int = if j0 < i { j0 } else { j0 - 1 };
                        assert(self.entries@[j].0@ == k);
                        assert(self.entries@[j].1@ == old_es[j0].1@);
                        assert(old(self)@[k] == old_es[j0].1@);
                    }
                    assert(self@ =~= old(self)@.remove(key@));
                }
                true
            },
            None => {
                proof {
                    if old(self)@.contains_key(key@) {
                        let i = choose|i: int|
                            0 <= i < self.entries@.len() && self.entries@[i].0@ == key@;
                    }
                    assert(self@ =~= old(self)@.remove(key@));
                }
                false
            },
        }
    }

    /// Drop every key.
    pub fn clear(&mut self)
        ensures
            final(self).wf(),
            final(self)@ == Map::<Seq<char>, ValueModel>::empty(),
    {
        self.entries.clear();
        proof {
            lemma_obj_model(self.entries@);
        }
    }

    /// The number of keys.
    pub fn len(&self) -> (r: usize)
        requires
            self.wf(),
        ensures
            r == self@.dom().len(),
    {
        proof {
            self.lemma_view();
        }
        self.entries.len()
    }

    /// Whether no key is present.
    pub fn is_empty(&self) -> (r: bool)
        requires
            self.wf(),
        ensures
            r == (self@.dom() =~= Set::<Seq<char>>::empty()),
    {
        proof {
            self.lemma_view();
            vstd::set_lib::lemma_set_empty_equivalency_len(self@.dom());
        }
        self.entries.len() == 0
    }

    /// A copy of this mapping.
    pub fn deep_clone(&self) -> (r: ValueMap)
        ensures
            r@ == self@,
            self.wf() ==> r.wf(),
    {
        let mut out: Vec<(String, Value)> = Vec::new();
        let mut i: usize = 0;
        while i < self.entries.len()
            invariant
                i <= self.entries@.len(),
                out@.len() == i as int,
                forall|j: int| 0 <= j < i ==> out@[j].0@ == self.entries@[j].0@
                    && out@[j].1@ == self.entries@[j].1@,
            decreases self.entries@.len() - i,
        {
            let k = self.entries[i].0.clone();
            let v = self.entries[i].1.deep_clone();
            out.push((k, v));
            i = i + 1;
        }
        let r = ValueMap { entries: out };
        proof {
            lemma_obj_model(self.entries@);
            lemma_obj_model(r.entries@);
            assert(Value::obj_model(r.entries@) =~= Value::obj_model(self.entries@));
        }
        r
    }

    /// A snapshot of the entries: each key once, bound as in the mapping.
    pub fn entries(&self) -> (r: Vec<(String, Value)>)
        requires
            self.wf(),
        ensures
            r@.len() == self@.dom().len(),
            forall|i: int, j: int| 0 <= i < j < r@.len() ==> r@[i].0@ != r@[j].0@,
            forall|i: int| 0 <= i < r@.len()
                ==> self@.contains_key(#[trigger] r@[i].0@) && self@[r@[i].0@] == r@[i].1@,
            forall|k: Seq<char>| #[trigger] self@.contains_key(k)
                ==> exists|i: int| 0 <= i < r@.len() && r@[i].0@ == k,
    {
        proof {
            self.lemma_view();
        }
        let c = self.deep_clone();
        proof {
            c.lemma_view();
        }
        c.entries
    }

    /// A snapshot of the keys: each key of the mapping exactly once.
    pub fn keys(&self) -> (r: Vec<String>)
        requires
            self.wf(),
        ensures
            r@.len() == self@.dom().len(),
            forall|i: int, j: int| 0 <= i < j < r@.len() ==> r@[i]@ != r@[j]@,
            forall|i: int| 0 <= i < r@.len() ==> self@.contains_key(#[trigger] r@[i]@),
            forall|k: Seq<char>| #[trigger] self@.contains_key(k)
                ==> exists|i: int| 0 <= i < r@.len() && r@[i]@ == k,
    {
        let es = self.entries();
        let mut out: Vec<String> = Vec::new();
        let mut i: usize = 0;
        while i < es.len()
            invariant
                i <= es@.len(),
                out@.len() == i as int,
                forall|j: int| 0 <= j < i ==> out@[j]@ == es@[j].0@,
            decreases es@.len() - i,
        {
            out.push(es[i].0.clone());
            i = i + 1;
        }
        proof {
            assert forall|k: Seq<char>| #[trigger] self@.contains_key(k)
                implies exists|i: int| 0 <= i < out@.len() && out@[i]@ == k by {
                let i = choose|i: int| 0 <= i < es@.len() && es@[i].0@ == k;
                assert(out@[i]@ == k);
            }
        }
        out
    }

    /// A snapshot of the values: one per key of the mapping.
    pub fn values(&self) -> (r: Vec<Value>)
        requires
            self.wf(),
        ensures
            r@.len() == self@.dom().len(),
            forall|i: int| 0 <= i < r@.len() ==> holds_value(self@, #[trigger] r@[i]@),
            exists|ks: Seq<Seq<char>>| #[trigger] values_match(self@, ks, r@),
    {
        let es = self.entries();
        let mut out: Vec<Value> = Vec::new();
        let mut i: usize = 0;
        while i < es.len()
            invariant
                i <= es@.len(),
                out@.len() == i as int,
                forall|j: int| 0 <= j < i ==> out@[j]@ == es@[j].1@,
                forall|j: int, l: int| 0 <= j < l < es@.len() ==> es@[j].0@ != es@[l].0@,
                forall|j: int| 0 <= j < es@.len()
                    ==> self@.contains_key(#[trigger] es@[j].0@) && self@[es@[j].0@] == es@[j].1@,
            decreases es@.len() - i,
        {
            let mut e = es[i].1.deep_clone();
            out.push(e);
            i = i + 1;
        }
        proof {
            assert forall|i: int| 0 <= i < out@.len()
                implies holds_value(self@, #[trigger] out@[i]@) by {
                assert(self@.contains_key(es@[i].0@) && self@[es@[i].0@] == out@[i]@);
            }
            let ks = Seq::new(es@.len(), |i: int| es@[i].0@);
            assert forall|i: int| 0 <= i < ks.len()
                implies self@.contains_key(#[trigger] ks[i]) && self@[ks[i]] == out@[i]@ by {
                assert(self@.contains_key(es@[i].0@));
            }
            assert forall|k: Seq<char>| #[trigger] self@.contains_key(k)
                implies exists|i: int| 0 <= i < ks.len() && ks[i] == k by {
                let i = choose|i: int| 0 <= i < es@.len() && es@[i].0@ == k;
                assert(ks[i] == k);
            }
            assert(values_match(self@, ks, out@));
        }
        out
    }

    /// The bytes this mapping encodes to under the codec. Decoding them
    /// under the same codec yields exactly this mapping.
    pub fn encode(&self, kind: CodecKind) -> (r: Vec<u8>)
        requires
            self.wf(),
        ensures
            spec_decode(kind, r@) == Some(self@),
    {
        encode_map_bytes(kind, &self.entries)
    }

    /// The mapping the bytes stand for under the codec, or nothing if
    /// they are malformed.
    pub fn decode(kind: CodecKind, bytes: &Vec<u8>) -> (r: Option<ValueMap>)
        ensures
            match r {
                Some(m) => spec_decode(kind, bytes@) == Some(m@) && m.wf(),
                None => spec_decode(kind, bytes@) is None,
            },
    {
        match decode_map_bytes(kind, bytes) {
            Some(es) => {
                let ghost all = es@;
                let mut m = ValueMap::new();
                let mut i: usize = 0;
                proof {
                    assert(all.subrange(0, 0) =~= Seq::<(String, Value)>::empty());
                    lemma_obj_model(all.subrange(0, 0));
                }
                while i < es.len()
                    invariant
                        i <= all.len(),
                        es@ == all,
                        m.wf(),
                        m@ == pairs_map(Value::obj_model(all.subrange(0, i as int))),
                    decreases all.len() - i,
                {
                    let k = es[i].0.clone();
                    let v = es[i].1.deep_clone();
                    proof {
                        let pre = all.subrange(0, i as int);
                        let post = all.subrange(0, i as int + 1);
                        lemma_obj_model(pre);
                        lemma_obj_model(post);
                        assert(Value::obj_model(post)
                            =~= Value::obj_model(pre).push((all[i as int].0@, all[i as int].1@)));
                        lemma_pairs_map_push(
                            Value::obj_model(pre),
                            (all[i as int].0@, all[i as int].1@),
                        );
                    }
                    m.insert(k, v);
                    i = i + 1;
                }
                proof {
                    assert(all.subrange(0, all.len() as int) =~= all);
                }
                Some(m)
            },
            None => None,
        }
    }

    /// Merge another mapping into this one: the other's bindings win on
    /// shared keys, bindings only here are kept.
    pub fn merge_from(&mut self, other: &ValueMap)
        requires
            old(self).wf(),
            other.wf(),
        ensures
            final(self).wf(),
            final(self)@ == old(self)@.union_prefer_right(other@),
    {
        let es = other.entries();
        let ghost all = es@;
        let mut i: usize = 0;
        proof {
            assert(all.subrange(0, 0) =~= Seq::<(String, Value)>::empty());
            lemma_obj_model(all.subrange(0, 0));
        }
        while i < es.len()
            invariant
                i <= all.len(),
                es@ == all,
                self.wf(),
                self@ == old(self)@.union_prefer_right(
                    pairs_map(Value::obj_model(all.subrange(0, i as int))),
                ),
                forall|j: int, l: int| 0 <= j < l < all.len() ==> all[j].0@ != all[l].0@,
                forall|j: int| 0 <= j < all.len()
                    ==> other@.contains_key(#[trigger] all[j].0@)
                        && other@[all[j].0@] == all[j].1@,
                forall|k: Seq<char>| #[trigger] other@.contains_key(k)
                    ==> exists|j: int| 0 <= j < all.len() && all[j].0@ == k,
            decreases all.len() - i,
        {
            let k = es[i].0.clone();
            let v = es[i].1.deep_clone();
            proof {
                let pre = all.subrange(0, i as int);
                let post = all.subrange(0, i as int + 1);
                lemma_obj_model(pre);
                lemma_obj_model(post);
                assert(Value::obj_model(post)
                    =~= Value::obj_model(pre).push((all[i as int].0@, all[i as int].1@)));
                lemma_pairs_map_push(
                    Value::obj_model(pre),
                    (all[i as int].0@, all[i as int].1@),
                );
            }
            self.insert(k, v);
            proof {
                assert(self@ =~= old(self)@.union_prefer_right(
                    pairs_map(Value::obj_model(all.subrange(0, i as int + 1))),
                ));
            }
            i = i + 1;
        }
        proof {
            assert(all.subrange(0, all.len() as int) =~= all);
            let ps = Value::obj_model(all);
            lemma_obj_model(all);
            assert forall|p: int, q: int| 0 <= p < q < ps.len()
                implies ps[p].0 != ps[q].0 by {
                assert(all[p].0@ != all[q].0@);
            }
            lemma_pairs_map(ps);
            assert forall|k: Seq<char>| #[trigger] other@.contains_key(k)
                implies pairs_map(ps).contains_key(k) && pairs_map(ps)[k] == other@[k] by {
                let j = choose|j: int| 0 <= j < all.len() && all[j].0@ == k;
                assert(ps[j] == (all[j].0@, all[j].1@));
            }
            assert forall|k: Seq<char>| #[trigger] pairs_map(ps).contains_key(k)
                implies other@.contains_key(k) by {
                let j = choose|j: int| 0 <= j < ps.len() && ps[j].0 == k;
                assert(all[j].0@ == k);
            }
            assert(pairs_map(ps) =~= other@);
        }
    }
}

} // verus!
