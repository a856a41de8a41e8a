//! Registries of named entries where a later entry for a name replaces an
//! earlier one.
use vstd::prelude::*;
use crate::text::{chars_eq, chars_of};
use std::sync::Arc;

verus! {

/// The names of entries as text, with their values.
pub open spec fn entry_views<V>(es: Seq<(String, V)>) -> Seq<(Seq<char>, V)> {
    es.map_values(|e: (String, V)| (e.0@, e.1))
}

/// The map the entries make: each name with the value of its last entry.
pub open spec fn latest_map<V>(es: Seq<(Seq<char>, V)>) -> Map<Seq<char>, V>
    decreases es.len(),
{
    if es.len() == 0 {
        Map::empty()
    } else {
        latest_map(es.drop_last()).insert(es.last().0, es.last().1)
    }
}

/// Law: a name is in the map exactly when some entry has it, and then it
/// maps to the value of the last entry with that name: a later entry
/// replaces an earlier one.
pub proof fn law_latest_entry_wins<V>(es: Seq<(Seq<char>, V)>, k: Seq<char>)
    ensures
        latest_map(es).contains_key(k) <==> exists|j: int| 0 <= j < es.len() && (#[trigger] es[j]).0 == k,
        latest_map(es).contains_key(k) ==> exists|j: int|
            0 <= j < es.len() && #[trigger] es[j] == (k, latest_map(es)[k]) && forall|m: int|
                j < m < es.len() ==> (#[trigger] es[m]).0 != k,
    decreases es.len(),
{
    if es.len() > 0 {
        let d = es.drop_last();
        law_latest_entry_wins(d, k);
        assert forall|j: int| 0 <= j < d.len() implies d[j] == es[j] by {}
        if es.last().0 == k {
            assert(es[es.len() - 1] == (k, latest_map(es)[k]));
        } else {
            if latest_map(d).contains_key(k) {
                let j = choose|j: int|
                    0 <= j < d.len() && #[trigger] d[j] == (k, latest_map(d)[k]) && forall|m: int|
                        j < m < d.len() ==> (#[trigger] d[m]).0 != k;
                assert(es[j] == (k, latest_map(es)[k]));
            }
            if exists|j: int| 0 <= j < es.len() && (#[trigger] es[j]).0 == k {
                let j = choose|j: int| 0 <= j < es.len() && (#[trigger] es[j]).0 == k;
                assert(d[j].0 == k);
            }
        }
    }
}

/// The position of the last entry named `name`.
pub fn find_latest<V>(es: &Vec<(String, V)>, name: &str) -> (r: Option<usize>)
    ensures
        r is Some <==> latest_map(entry_views(es@)).contains_key(name@),
        r matches Some(i) ==> i < es@.len() && es@[i as int].1 == latest_map(entry_views(es@))[name@],
{
    let target = chars_of(name);
    let ghost all = entry_views(es@);
    let mut i = es.len();
    assert(all.take(i as int) =~= all);
    while i > 0
        invariant
            i <= es.len(),
            all == entry_views(es@),
            target@ == name@,
            latest_map(all).contains_key(name@) == latest_map(all.take(i as int)).contains_key(
                name@,
            ),
            latest_map(all).contains_key(name@) ==> latest_map(all)[name@] == latest_map(
                all.take(i as int),
            )[name@],
        decreases i,
    {
        let ghost t = all.take(i as int);
        assert(t.drop_last() =~= all.take(i - 1));
        assert(t.last() == (es@[i - 1].0@, es@[i - 1].1));
        let k = chars_of(es[i - 1].0.as_str());
        assert(k@ == t.last().0);
        if chars_eq(&k, &target) {
            return Some(i - 1);
        }
        i = i - 1;
    }
    assert(all.take(0) =~= Seq::<(Seq<char>, V)>::empty());
    None
}

/// The entries without those named `k`, in order.
pub open spec fn without<V>(es: Seq<(Seq<char>, V)>, k: Seq<char>) -> Seq<(Seq<char>, V)>
    decreases es.len(),
{
    if es.len() == 0 {
        Seq::empty()
    } else {
        let w = without(es.drop_last(), k);
        if es.last().0 == k {
            w
        } else {
            w.push(es.last())
        }
    }
}

/// Lemma: dropping the entries named `k` drops `k` from the map and
/// keeps everything else.
pub proof fn lemma_without<V>(es: Seq<(Seq<char>, V)>, k: Seq<char>)
    ensures
        latest_map(without(es, k)) == latest_map(es).remove(k),
    decreases es.len(),
{
    if es.len() > 0 {
        let d = es.drop_last();
        lemma_without(d, k);
        let w = without(d, k);
        if es.last().0 == k {
            assert(without(es, k) == w);
            assert(latest_map(es).remove(k) =~= latest_map(d).remove(k));
        } else {
            assert(without(es, k) == w.push(es.last()));
            assert(w.push(es.last()).drop_last() =~= w);
            assert(latest_map(w.push(es.last())) == latest_map(w).insert(es.last().0, es.last().1));
            assert(latest_map(es).remove(k) =~= latest_map(d).remove(k).insert(
                es.last().0,
                es.last().1,
            ));
        }
    } else {
        assert(latest_map(es).remove(k) =~= Map::<Seq<char>, V>::empty());
    }
}

/// Removes every entry named `name`, keeping the others in order.
pub fn remove_named<V>(es: &mut Vec<(String, V)>, name: &str)
    ensures
        entry_views(final(es)@) == without(entry_views(old(es)@), name@),
{
    let target = chars_of(name);
    let ghost all = entry_views(old(es)@);
    let mut kept: Vec<(String, V)> = Vec::new();
    let mut i: usize = 0;
    let n = es.len();
    while i < n
        invariant
            n == old(es)@.len(),
            target@ == name@,
            all == entry_views(old(es)@),
            i <= n,
            es@.len() == n - i,
            forall|j: int| 0 <= j < es@.len() ==> entry_views(es@)[j] == all[j + i],
            entry_views(kept@) == without(all.take(i as int), name@),
        decreases n - i,
    {
        assert(entry_views(es@)[0] == all[i as int]);
        let ghost rest = es@.drop_first();
        let ghost old_views = entry_views(es@);
        let e = es.remove(0);
        let ghost ev = (e.0@, e.1);
        assert(es@ == rest);
        assert(ev == all[i as int]);
        let ghost t = all.take(i + 1);
        assert(t.drop_last() =~= all.take(i as int));
        let k = chars_of(e.0.as_str());
        let ghost before = entry_views(kept@);
        if !chars_eq(&k, &target) {
            kept.push(e);
            assert(entry_views(kept@) =~= before.push(ev));
        }
        assert forall|j: int| 0 <= j < es@.len() implies entry_views(es@)[j] == all[j + i + 1] by {
            assert(entry_views(es@)[j] == old_views[j + 1]);
        }
        i = i + 1;
    }
    assert(all.take(n as int) =~= all);
    *es = kept;
}

/// Another handle to what `a` points to, by `Arc::clone`, which shares
/// the value rather than copying it.
#[verifier::external_body]
pub(crate) fn share<T: ?Sized>(a: &Arc<T>) -> (r: Arc<T>)
    ensures
        r == *a,
{
    a.clone()
}

} // verus!
