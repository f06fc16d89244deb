//! Association lists keyed by strings: a vector of `(key, value)` pairs whose
//! keys are distinct, read as a finite map.

use vstd::prelude::*;

verus! {

/// The pairs with keys and values taken by their views.
pub open spec fn table_view<V: View>(t: Seq<(String, V)>) -> Seq<(Seq<char>, V::V)> {
    t.map_values(|e: (String, V)| (e.0@, e.1@))
}

/// No key occurs twice.
pub open spec fn keys_distinct<W>(t: Seq<(Seq<char>, W)>) -> bool {
    forall|i: int, j: int|
        0 <= i < t.len() && 0 <= j < t.len() && i != j ==> #[trigger] t[i].0 != #[trigger] t[j].0
}

/// The key occurs in the table.
pub open spec fn has_key<W>(t: Seq<(Seq<char>, W)>, key: Seq<char>) -> bool {
    exists|i: int| 0 <= i < t.len() && #[trigger] t[i].0 == key
}

/// The value stored under `key`, read as a map.
pub open spec fn table_get<W>(t: Seq<(Seq<char>, W)>, key: Seq<char>) -> Option<W> {
    if has_key(t, key) {
        Some(t[choose|i: int| 0 <= i < t.len() && #[trigger] t[i].0 == key].1)
    } else {
        None
    }
}

/// With distinct keys, the value under a key is the one at its position.
pub proof fn lemma_table_get_at<W>(t: Seq<(Seq<char>, W)>, i: int)
    requires
        keys_distinct(t),
        0 <= i < t.len(),
    ensures
        table_get(t, t[i].0) == Some(t[i].1),
{
    let key = t[i].0;
    assert(has_key(t, key));
    let j = choose|j: int| 0 <= j < t.len() && #[trigger] t[j].0 == key;
    assert(t[j].0 == t[i].0);
}

/// The position of `key` in the table, if it is there.
pub fn find_key<V: View>(table: &Vec<(String, V)>, key: &String) -> (res: Option<usize>)
    ensures
        match res {
            Some(i) => i < table@.len() && table@[i as int].0@ == key@,
            None => !has_key(table_view(table@), key@),
        },
{
    let mut i: usize = 0;
    while i < table.len()
        invariant
            i <= table@.len(),
            forall|j: int| 0 <= j < i ==> table@[j].0@ != key@,
        decreases table@.len() - i,
    {
        if table[i].0 == *key {
            return Some(i);
        }
        i = i + 1;
    }
    proof {
        let tv = table_view(table@);
        assert forall|j: int| 0 <= j < tv.len() implies #[trigger] tv[j].0 != key@ by {
            assert(tv[j].0 == table@[j].0@);
        }
    }
    None
}

/// Stores `value` under `key`, replacing what the key held.
pub fn table_insert<V: View>(table: &mut Vec<(String, V)>, key: String, value: V)
    requires
        keys_distinct(table_view(old(table)@)),
    ensures
        keys_distinct(table_view(final(table)@)),
        forall|id: Seq<char>|
            #[trigger] table_get(table_view(final(table)@), id) == if id == key@ {
                Some(value@)
            } else {
                table_get(table_view(old(table)@), id)
            },
{
    let ghost old_t = table_view(table@);
    let ghost key_v = key@;
    let ghost value_v = value@;
    match find_key(table, &key) {
        Some(i) => {
            table.set(i, (key, value));
            proof {
                let new_t = table_view(table@);
                assert(new_t =~= old_t.update(i as int, (key_v, value_v)));
                assert(old_t[i as int].0 == key_v);
                assert forall|a: int, b: int|
                    0 <= a < new_t.len() && 0 <= b < new_t.len() && a != b implies #[trigger] new_t[a].0
                    != #[trigger] new_t[b].0 by {
                    assert(new_t[a].0 == old_t[a].0);
                    assert(new_t[b].0 == old_t[b].0);
                }
                lemma_table_get_at(new_t, i as int);
                assert forall|id: Seq<char>| #[trigger]
                    table_get(new_t, id) == if id == key_v {
                        Some(value_v)
                    } else {
                        table_get(old_t, id)
                    } by {
                    if id != key_v {
                        if has_key(old_t, id) {
                            let j = choose|j: int| 0 <= j < old_t.len() && #[trigger] old_t[j].0 == id;
                            lemma_table_get_at(old_t, j);
                            lemma_table_get_at(new_t, j);
                        } else if has_key(new_t, id) {
                            let j = choose|j: int| 0 <= j < new_t.len() && #[trigger] new_t[j].0 == id;
                            assert(old_t[j].0 == id);
                        }
                    }
                }
            }
        },
        None => {
            table.push((key, value));
            proof {
                let new_t = table_view(table@);
                assert(new_t =~= old_t.push((key_v, value_v)));
                assert forall|a: int, b: int|
                    0 <= a < new_t.len() && 0 <= b < new_t.len() && a != b implies #[trigger] new_t[a].0
                    != #[trigger] new_t[b].0 by {
                    if a < old_t.len() && b < old_t.len() {
                        assert(new_t[a].0 == old_t[a].0);
                        assert(new_t[b].0 == old_t[b].0);
                    } else if a < old_t.len() {
                        assert(old_t[a].0 != key_v);
                    } else if b < old_t.len() {
                        assert(old_t[b].0 != key_v);
                    }
                }
                lemma_table_get_at(new_t, old_t.len() as int);
                assert forall|id: Seq<char>| #[trigger]
                    table_get(new_t, id) == if id == key_v {
                        Some(value_v)
                    } else {
                        table_get(old_t, id)
                    } by {
                    if id != key_v {
                        if has_key(old_t, id) {
                            let j = choose|j: int| 0 <= j < old_t.len() && #[trigger] old_t[j].0 == id;
                            lemma_table_get_at(old_t, j);
                            lemma_table_get_at(new_t, j);
                        } else if has_key(new_t, id) {
                            let j = choose|j: int| 0 <= j < new_t.len() && #[trigger] new_t[j].0 == id;
                            assert(old_t[j].0 == id);
                        }
                    }
                }
            }
        },
    }
}

} // verus!
