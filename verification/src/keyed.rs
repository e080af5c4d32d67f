//! Lists of pairs that stand for maps.

use vstd::prelude::*;

verus! {

/// Whether no two pairs have the same key.
pub open spec fn keys_differ<K, V>(list: Seq<(K, V)>) -> bool {
    forall|i: int, j: int|
        0 <= i < j < list.len() ==> (#[trigger] list[i]).0 != (#[trigger] list[j]).0
}

/// Whether a pair has a key.
pub open spec fn has_key<K, V>(list: Seq<(K, V)>, key: K) -> bool {
    exists|i: int| 0 <= i < list.len() && (#[trigger] list[i]).0 == key
}

/// A place of a key.
pub open spec fn place_of_key<K, V>(list: Seq<(K, V)>, key: K) -> int {
    choose|i: int| 0 <= i < list.len() && (#[trigger] list[i]).0 == key
}

/// The map that a list of pairs stands for.
pub open spec fn keyed<K, V>(list: Seq<(K, V)>) -> Map<K, V> {
    Map::new(|key: K| has_key(list, key), |key: K| list[place_of_key(list, key)].1)
}

/// A pair of the list is an entry of the map.
pub proof fn lemma_entry<K, V>(list: Seq<(K, V)>, i: int)
    requires
        keys_differ(list),
        0 <= i < list.len(),
    ensures
        keyed(list).dom().contains(list[i].0),
        keyed(list)[list[i].0] == list[i].1,
        place_of_key(list, list[i].0) == i,
{
    let j = place_of_key(list, list[i].0);
    assert(list[i].0 == list[i].0);
    assert(0 <= j < list.len() && list[j].0 == list[i].0);
    if i < j {
        assert(list[i].0 != list[j].0);
    } else if j < i {
        assert(list[j].0 != list[i].0);
    }
}

/// A new pair at the end is a new entry.
pub proof fn lemma_push<K, V>(list: Seq<(K, V)>, key: K, value: V)
    requires
        keys_differ(list),
        !has_key(list, key),
    ensures
        keys_differ(list.push((key, value))),
        keyed(list.push((key, value))) == keyed(list).insert(key, value),
{
    let to = list.push((key, value));
    assert(forall|i: int| 0 <= i < list.len() ==> (#[trigger] list[i]).0 != key);
    assert(keys_differ(to));
    assert forall|k: K| #![auto] keyed(to).dom().contains(k) == keyed(list).insert(
        key,
        value,
    ).dom().contains(k) by {
        if has_key(list, k) {
            let i = place_of_key(list, k);
            assert(to[i] == list[i]);
        }
        assert(to[list.len() as int].0 == key);
        if has_key(to, k) {
            let i = place_of_key(to, k);
            if i < list.len() {
                assert(list[i].0 == k);
            }
        }
    }
    assert forall|k: K| #![auto] keyed(to).dom().contains(k) implies keyed(to)[k] == keyed(
        list,
    ).insert(key, value)[k] by {
        let i = place_of_key(to, k);
        lemma_entry(to, i);
        if i < list.len() {
            lemma_entry(list, i);
        }
    }
    assert(keyed(to) =~= keyed(list).insert(key, value));
}

/// Another value at a place changes the entry.
pub proof fn lemma_update<K, V>(list: Seq<(K, V)>, at: int, value: V)
    requires
        keys_differ(list),
        0 <= at < list.len(),
    ensures
        keys_differ(list.update(at, (list[at].0, value))),
        keyed(list.update(at, (list[at].0, value))) == keyed(list).insert(list[at].0, value),
{
    let key = list[at].0;
    let to = list.update(at, (key, value));
    assert forall|i: int| 0 <= i < list.len() implies (#[trigger] to[i]).0 == list[i].0 by {}
    assert(keys_differ(to)) by {
        assert forall|i: int, j: int| 0 <= i < j < to.len() implies (#[trigger] to[i]).0 != (
        #[trigger] to[j]).0 by {
            assert(list[i].0 != list[j].0);
        }
    }
    assert forall|k: K| #![auto] keyed(to).dom().contains(k) == keyed(list).insert(
        key,
        value,
    ).dom().contains(k) by {
        if has_key(list, k) {
            assert(to[place_of_key(list, k)].0 == k);
        }
        assert(to[at].0 == key);
        if has_key(to, k) {
            assert(list[place_of_key(to, k)].0 == k);
        }
    }
    assert forall|k: K| #![auto] keyed(to).dom().contains(k) implies keyed(to)[k] == keyed(
        list,
    ).insert(key, value)[k] by {
        let i = place_of_key(to, k);
        lemma_entry(to, i);
        lemma_entry(list, i);
        if i != at {
            if k == key {
                lemma_entry(list, at);
            }
        }
    }
    assert(keyed(to) =~= keyed(list).insert(key, value));
}

/// Removing a pair removes the entry.
pub proof fn lemma_remove<K, V>(list: Seq<(K, V)>, at: int)
    requires
        keys_differ(list),
        0 <= at < list.len(),
    ensures
        keys_differ(list.remove(at)),
        keyed(list.remove(at)) == keyed(list).remove(list[at].0),
{
    let key = list[at].0;
    let to = list.remove(at);
    assert forall|i: int| 0 <= i < to.len() implies #[trigger] to[i] == list[if i < at {
        i
    } else {
        i + 1
    }] by {}
    assert(keys_differ(to)) by {
        assert forall|i: int, j: int| 0 <= i < j < to.len() implies (#[trigger] to[i]).0 != (
        #[trigger] to[j]).0 by {
            let a = if i < at {
                i
            } else {
                i + 1
            };
            let b = if j < at {
                j
            } else {
                j + 1
            };
            assert(list[a].0 != list[b].0);
        }
    }
    assert forall|k: K| #![auto] keyed(to).dom().contains(k) == keyed(list).remove(
        key,
    ).dom().contains(k) by {
        if has_key(list, k) && k != key {
            let i = place_of_key(list, k);
            assert(list[i].0 == k);
            let j = if i < at {
                i
            } else {
                i - 1
            };
            assert(to[j].0 == k);
        }
        if has_key(to, k) {
            let j = place_of_key(to, k);
            let i = if j < at {
                j
            } else {
                j + 1
            };
            assert(list[i].0 == k);
            if k == key {
                if i < at {
                    assert(list[i].0 != list[at].0);
                } else {
                    assert(list[at].0 != list[i].0);
                }
            }
        }
    }
    assert forall|k: K| #![auto] keyed(to).dom().contains(k) implies keyed(to)[k] == keyed(
        list,
    ).remove(key)[k] by {
        let j = place_of_key(to, k);
        let i = if j < at {
            j
        } else {
            j + 1
        };
        lemma_entry(to, j);
        lemma_entry(list, i);
    }
    assert(keyed(to) =~= keyed(list).remove(key));
}

/// The map has as many entries as the list has pairs.
pub proof fn lemma_size<K, V>(list: Seq<(K, V)>)
    requires
        keys_differ(list),
    ensures
        keyed(list).dom().finite(),
        keyed(list).dom().len() == list.len(),
    decreases list.len(),
{
    if list.len() == 0 {
        assert(keyed(list).dom() =~= Set::<K>::empty());
    } else {
        let front = list.drop_last();
        let last = list.last();
        assert(keys_differ(front)) by {
            assert forall|i: int, j: int| 0 <= i < j < front.len() implies (#[trigger] front[i]).0
                != (#[trigger] front[j]).0 by {
                assert(list[i].0 != list[j].0);
            }
        }
        lemma_size(front);
        if has_key(front, last.0) {
            let i = place_of_key(front, last.0);
            assert(list[i].0 != list[list.len() - 1].0);
        }
        lemma_push(front, last.0, last.1);
        assert(front.push((last.0, last.1)) =~= list);
    }
}

/// Keeping only the pairs that pass keeps only the entries that pass.
pub proof fn lemma_filtered<K, V>(list: Seq<(K, V)>, keep: spec_fn((K, V)) -> bool)
    requires
        keys_differ(list),
    ensures
        keys_differ(list.filter(keep)),
        keyed(list.filter(keep)) == keyed(list).restrict(
            Set::new(
                |key: K| keyed(list).dom().contains(key) && keep((key, keyed(list)[key])),
            ),
        ),
    decreases list.len(),
{
    reveal(Seq::filter);
    let kept = list.filter(keep);
    let passing = |l: Seq<(K, V)>|
        keyed(l).restrict(
            Set::new(|key: K| keyed(l).dom().contains(key) && keep((key, keyed(l)[key]))),
        );
    if list.len() == 0 {
        assert(keyed(kept) =~= passing(list));
    } else {
        let front = list.drop_last();
        let last = list.last();
        assert(keys_differ(front)) by {
            assert forall|i: int, j: int| 0 <= i < j < front.len() implies (#[trigger] front[i]).0
                != (#[trigger] front[j]).0 by {
                assert(list[i].0 != list[j].0);
            }
        }
        lemma_filtered(front, keep);
        if has_key(front, last.0) {
            let i = place_of_key(front, last.0);
            assert(list[i].0 != list[list.len() - 1].0);
        }
        assert(!has_key(front, last.0));
        lemma_push(front, last.0, last.1);
        assert(front.push((last.0, last.1)) =~= list);
        let kept_front = front.filter(keep);
        assert(keyed(kept_front) == passing(front));
        if keep(last) {
            assert(!has_key(kept_front, last.0)) by {
                assert(!keyed(kept_front).dom().contains(last.0));
            }
            lemma_push(kept_front, last.0, last.1);
            assert(kept == kept_front.push((last.0, last.1)));
            assert(keyed(kept) =~= passing(list));
        } else {
            assert(kept == kept_front);
            assert(keyed(kept) =~= passing(list));
        }
    }
}

} // verus!
