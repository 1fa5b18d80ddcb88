//! The structured values a store holds: a JSON-like model of null,
//! booleans, integers, strings, sequences and string-keyed records.

use vstd::prelude::*;

verus! {

/// One structured value held in a store. Values are opaque to the store
/// engine: it copies them, compares them and encodes them, never
/// interprets them.
#[derive(Debug)]
pub enum Value {
    Null,
    Bool(bool),
    Int(i64),
    Str(String),
    Arr(Vec<Value>),
    Obj(Vec<(String, Value)>),
}

/// The mathematical shape of a [`Value`]: what the contracts speak of.
pub enum ValueModel {
    Null,
    Bool(bool),
    Int(int),
    Str(Seq<char>),
    Arr(Seq<ValueModel>),
    Obj(Seq<(Seq<char>, ValueModel)>),
}

impl Value {
    /// The abstract shape of this value.
    pub open spec fn model(self) -> ValueModel
        decreases self,
    {
        match self {
            Value::Null => ValueModel::Null,
            Value::Bool(b) => ValueModel::Bool(b),
            Value::Int(i) => ValueModel::Int(i as int),
            Value::Str(s) => ValueModel::Str(s@),
            Value::Arr(vs) => ValueModel::Arr(Self::arr_model(vs@)),
            Value::Obj(es) => ValueModel::Obj(Self::obj_model(es@)),
        }
    }

    /// The element-wise shape of a sequence of values.
    pub open spec fn arr_model(vs: Seq<Value>) -> Seq<ValueModel>
        decreases vs,
    {
        if vs.len() == 0 {
            Seq::empty()
        } else {
            seq![vs[0].model()] + Self::arr_model(vs.drop_first())
        }
    }

    /// The entry-wise shape of a sequence of keyed values.
    pub open spec fn obj_model(es: Seq<(String, Value)>) -> Seq<(Seq<char>, ValueModel)>
        decreases es,
    {
        if es.len() == 0 {
            Seq::empty()
        } else {
            seq![(es[0].0@, es[0].1.model())] + Self::obj_model(es.drop_first())
        }
    }
}

impl View for Value {
    type V = ValueModel;

    open spec fn view(&self) -> ValueModel {
        self.model()
    }
}

pub proof fn lemma_arr_model(vs: Seq<Value>)
    ensures
        Value::arr_model(vs).len() == vs.len(),
        forall|i: int| 0 <= i < vs.len() ==> Value::arr_model(vs)[i] == vs[i].model(),
    decreases vs.len(),
{
    if vs.len() > 0 {
        lemma_arr_model(vs.drop_first());
    }
}

pub proof fn lemma_obj_model(es: Seq<(String, Value)>)
    ensures
        Value::obj_model(es).len() == es.len(),
        forall|i: int| 0 <= i < es.len() ==> Value::obj_model(es)[i]
            == (es[i].0@, es[i].1.model()),
    decreases es.len(),
{
    if es.len() > 0 {
        lemma_obj_model(es.drop_first());
    }
}

/// The mapping described by a sequence of key-value pairs, a later pair
/// overriding an earlier one of the same key.
pub open spec fn pairs_map(ps: Seq<(Seq<char>, ValueModel)>) -> Map<Seq<char>, ValueModel>
    decreases ps.len(),
{
    if ps.len() == 0 {
        Map::empty()
    } else {
        pairs_map(ps.drop_last()).insert(ps.last().0, ps.last().1)
    }
}

/// Whether some pair of the sequence carries the given key.
pub open spec fn seq_has_key(ps: Seq<(Seq<char>, ValueModel)>, k: Seq<char>) -> bool {
    exists|i: int| 0 <= i < ps.len() && ps[i].0 == k
}

/// Extending a pair sequence by one pair inserts that pair's binding.
pub proof fn lemma_pairs_map_push(ps: Seq<(Seq<char>, ValueModel)>, p: (Seq<char>, ValueModel))
    ensures
        pairs_map(ps.push(p)) == pairs_map(ps).insert(p.0, p.1),
{
    assert(ps.push(p).drop_last() =~= ps);
}

/// With pairwise-distinct keys, the mapping holds exactly the pairs'
/// keys, binds each key to its pair's value, and has one entry per pair.
pub proof fn lemma_pairs_map(ps: Seq<(Seq<char>, ValueModel)>)
    requires
        forall|i: int, j: int| 0 <= i < j < ps.len() ==> ps[i].0 != ps[j].0,
    ensures
        forall|k: Seq<char>| #[trigger] pairs_map(ps).contains_key(k) <==> seq_has_key(ps, k),
        forall|i: int| 0 <= i < ps.len() ==> pairs_map(ps).contains_key(#[trigger] ps[i].0)
            && pairs_map(ps)[ps[i].0] == ps[i].1,
        pairs_map(ps).dom().finite(),
        pairs_map(ps).dom().len() == ps.len(),
    decreases ps.len(),
{
    if ps.len() > 0 {
        let ps0 = ps.drop_last();
        lemma_pairs_map(ps0);
        assert forall|k: Seq<char>| #[trigger] pairs_map(ps).contains_key(k)
            implies seq_has_key(ps, k) by {
            if k == ps.last().0 {
                assert(ps[ps.len() - 1].0 == k);
            } else {
                let i = choose|i: int| 0 <= i < ps0.len() && ps0[i].0 == k;
                assert(ps[i].0 == k);
            }
        }
        assert forall|k: Seq<char>| seq_has_key(ps, k)
            implies #[trigger] pairs_map(ps).contains_key(k) by {
            let i = choose|i: int| 0 <= i < ps.len() && ps[i].0 == k;
            if i < ps.len() - 1 {
                assert(ps0[i].0 == k);
            }
        }
        assert(!pairs_map(ps0).contains_key(ps.last().0)) by {
            if pairs_map(ps0).contains_key(ps.last().0) {
                let i = choose|i: int| 0 <= i < ps0.len() && ps0[i].0 == ps.last().0;
                assert(ps[i].0 == ps[ps.len() - 1].0);
            }
        }
    }
}

impl Value {
    /// A copy of this value. The store never hands out aliases into its
    /// cache: every read and write boundary copies.
    pub fn deep_clone(&self) -> (r: Value)
        ensures
            r@ == self@,
        decreases self,
    {
        match self {
            Value::Null => Value::Null,
            Value::Bool(b) => Value::Bool(*b),
            Value::Int(i) => Value::Int(*i),
            Value::Str(s) => Value::Str(s.clone()),
            Value::Arr(vs) => Value::Arr(clone_values(vs)),
            Value::Obj(es) => Value::Obj(clone_entries(es)),
        }
    }
}

fn clone_values(vs: &Vec<Value>) -> (r: Vec<Value>)
    ensures
        Value::arr_model(r@) == Value::arr_model(vs@),
    decreases vs,
{
    let mut out: Vec<Value> = Vec::new();
    let mut i: usize = 0;
    while i < vs.len()
        invariant
            i <= vs.len(),
            out@.len() == i as int,
            forall|j: int| 0 <= j < i ==> out@[j]@ == vs@[j]@,
        decreases vs.len() - i,
    {
        out.push(vs[i].deep_clone());
        i = i + 1;
    }
    proof {
        lemma_arr_model(vs@);
        lemma_arr_model(out@);
        assert(Value::arr_model(out@) =~= Value::arr_model(vs@));
    }
    out
}

fn clone_entry(e: &(String, Value)) -> (r: (String, Value))
    ensures
        r.0@ == e.0@,
        r.1@ == e.1@,
    decreases e,
{
    (e.0.clone(), e.1.deep_clone())
}

fn clone_entries(es: &Vec<(String, Value)>) -> (r: Vec<(String, Value)>)
    ensures
        Value::obj_model(r@) == Value::obj_model(es@),
    decreases es,
{
    let mut out: Vec<(String, Value)> = Vec::new();
    let mut i: usize = 0;
    while i < es.len()
        invariant
            i <= es.len(),
            out@.len() == i as int,
            forall|j: int| 0 <= j < i ==> out@[j].0@ == es@[j].0@ && out@[j].1@ == es@[j].1@,
        decreases es.len() - i,
    {
        out.push(clone_entry(&es[i]));
        i = i + 1;
    }
    proof {
        lemma_obj_model(es@);
        lemma_obj_model(out@);
        assert(Value::obj_model(out@) =~= Value::obj_model(es@));
    }
    out
}

/// Whether two values have the same shape: the equality the engine uses
/// when it asks if a cached value differs from its default.
pub fn value_eq(a: &Value, b: &Value) -> (r: bool)
    ensures
        r == (a@ == b@),
    decreases a,
{
    match (a, b) {
        (Value::Null, Value::Null) => true,
        (Value::Bool(x), Value::Bool(y)) => *x == *y,
        (Value::Int(x), Value::Int(y)) => *x == *y,
        (Value::Str(x), Value::Str(y)) => *x == *y,
        (Value::Arr(xs), Value::Arr(ys)) => eq_values(xs, ys),
        (Value::Obj(xs), Value::Obj(ys)) => eq_entries(xs, ys),
        _ => {
            proof {
                assert(a@ != b@) by {
                    match (a, b) {
                        (Value::Null, Value::Null) => {},
                        (Value::Bool(_), Value::Bool(_)) => {},
                        (Value::Int(_), Value::Int(_)) => {},
                        (Value::Str(_), Value::Str(_)) => {},
                        (Value::Arr(_), Value::Arr(_)) => {},
                        (Value::Obj(_), Value::Obj(_)) => {},
                        _ => {},
                    }
                }
            }
            false
        },
    }
}

fn eq_values(xs: &Vec<Value>, ys: &Vec<Value>) -> (r: bool)
    ensures
        r == (Value::arr_model(xs@) == Value::arr_model(ys@)),
    decreases xs,
{
    proof {
        lemma_arr_model(xs@);
        lemma_arr_model(ys@);
    }
    if xs.len() != ys.len() {
        return false;
    }
    let mut i: usize = 0;
    while i < xs.len()
        invariant
            i <= xs.len(),
            xs.len() == ys.len(),
            Value::arr_model(xs@).len() == xs@.len(),
            Value::arr_model(ys@).len() == ys@.len(),
            forall|j: int| 0 <= j < xs@.len() ==> Value::arr_model(xs@)[j] == xs@[j].model(),
            forall|j: int| 0 <= j < ys@.len() ==> Value::arr_model(ys@)[j] == ys@[j].model(),
            forall|j: int| 0 <= j < i ==> xs@[j]@ == ys@[j]@,
        decreases xs.len() - i,
    {
        if !value_eq(&xs[i], &ys[i]) {
            proof {
                assert(Value::arr_model(xs@)[i as int] != Value::arr_model(ys@)[i as int]);
            }
            return false;
        }
        i = i + 1;
    }
    proof {
        assert(Value::arr_model(xs@) =~= Value::arr_model(ys@));
    }
    true
}

fn eq_entry(x: &(String, Value), y: &(String, Value)) -> (r: bool)
    ensures
        r == (x.0@ == y.0@ && x.1@ == y.1@),
    decreases x,
{
    if !(x.0 == y.0) {
        return false;
    }
    value_eq(&x.1, &y.1)
}

fn eq_entries(xs: &Vec<(String, Value)>, ys: &Vec<(String, Value)>) -> (r: bool)
    ensures
        r == (Value::obj_model(xs@) == Value::obj_model(ys@)),
    decreases xs,
{
    proof {
        lemma_obj_model(xs@);
        lemma_obj_model(ys@);
    }
    if xs.len() != ys.len() {
        return false;
    }
    let mut i: usize = 0;
    while i < xs.len()
        invariant
            i <= xs.len(),
            xs.len() == ys.len(),
            Value::obj_model(xs@).len() == xs@.len(),
            Value::obj_model(ys@).len() == ys@.len(),
            forall|j: int| 0 <= j < xs@.len() ==> Value::obj_model(xs@)[j]
                == (xs@[j].0@, xs@[j].1.model()),
            forall|j: int| 0 <= j < ys@.len() ==> Value::obj_model(ys@)[j]
                == (ys@[j].0@, ys@[j].1.model()),
            forall|j: int| 0 <= j < i ==> xs@[j].0@ == ys@[j].0@ && xs@[j].1@ == ys@[j].1@,
        decreases xs.len() - i,
    {
        if !eq_entry(&xs[i], &ys[i]) {
            proof {
                assert(Value::obj_model(xs@)[i as int] != Value::obj_model(ys@)[i as int]);
            }
            return false;
        }
        i = i + 1;
    }
    proof {
        assert(Value::obj_model(xs@) =~= Value::obj_model(ys@));
    }
    true
}

} // verus!
