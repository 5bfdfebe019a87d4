use vstd::prelude::*;

verus! {

/// The concatenation of a sequence of strings, in order.
pub open spec fn concat_all(parts: Seq<Seq<char>>) -> Seq<char>
    decreases parts.len(),
{
    if parts.len() == 0 {
        Seq::empty()
    } else {
        concat_all(parts.drop_last()) + parts.last()
    }
}

/// The value of the first entry of `entries` whose key is `key`.
pub open spec fn assoc<V>(entries: Seq<(String, V)>, key: Seq<char>) -> Option<V> {
    if exists|j: int| 0 <= j < entries.len() && (#[trigger] entries[j]).0@ == key {
        Some(entries[first_key_index(entries, key)].1)
    } else {
        None
    }
}

/// Some entry of `entries` has key `key`.
pub open spec fn has_key<V>(entries: Seq<(String, V)>, key: Seq<char>) -> bool {
    exists|j: int| 0 <= j < entries.len() && (#[trigger] entries[j]).0@ == key
}

/// Some string of `names` reads `text`.
pub open spec fn contains_text(names: Seq<String>, text: Seq<char>) -> bool {
    exists|i: int| 0 <= i < names.len() && (#[trigger] names[i])@ == text
}

/// The index of the first entry of `entries` whose key is `key`.
pub open spec fn first_key_index<V>(entries: Seq<(String, V)>, key: Seq<char>) -> int {
    choose|j: int|
        0 <= j < entries.len() && (#[trigger] entries[j]).0@ == key && forall|i: int|
            0 <= i < j ==> (#[trigger] entries[i]).0@ != key
}

/// No two entries share a key.
pub open spec fn keys_distinct<V>(entries: Seq<(String, V)>) -> bool {
    forall|i: int, j: int|
        0 <= i < entries.len() && 0 <= j < entries.len() && i != j ==> (#[trigger] entries[i]).0@
            != (#[trigger] entries[j]).0@
}

/// Position of the first entry whose key is `key`, if any.
pub fn find_key<V>(entries: &Vec<(String, V)>, key: &String) -> (r: Option<usize>)
    ensures
        match r {
            Some(j) => j < entries@.len() && entries@[j as int].0@ == key@ && forall|i: int|
                0 <= i < j ==> (#[trigger] entries@[i]).0@ != key@,
            None => forall|i: int| 0 <= i < entries@.len() ==> (#[trigger] entries@[i]).0@ != key@,
        },
        r is Some <==> assoc(entries@, key@) is Some,
        r is Some <==> has_key(entries@, key@),
        r matches Some(j) ==> assoc(entries@, key@) == Some(entries@[j as int].1) && first_key_index(entries@, key@) == j,
{
    let mut i: usize = 0;
    while i < entries.len()
        invariant
            i <= entries@.len(),
            forall|k: int| 0 <= k < i ==> (#[trigger] entries@[k]).0@ != key@,
        decreases entries@.len() - i,
    {
        if entries[i].0.eq(key) {
            proof {
                let j = first_key_index(entries@, key@);
                assert(entries@[i as int].0@ == key@);
                assert(0 <= j < entries@.len() && entries@[j].0@ == key@ && forall|k: int| 0 <= k < j ==> (#[trigger] entries@[k]).0@ != key@);
                if j < i {
                    assert(entries@[j].0@ != key@);
                }
                if j > i {
                    assert(entries@[i as int].0@ != key@);
                }
            }
            return Some(i);
        }
        i += 1;
    }
    None
}

} // verus!
