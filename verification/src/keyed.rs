//! Lists of pairs that are searched by key.
//!
//! A key is found at the first pair that carries it. Both the members of a
//! JSON object and the sessions of a manager are kept in such lists.

use vstd::prelude::*;

verus! {

/// The index of the first of `keys` that equals `key`, from index `from`
/// on; the length of `keys` if there is none.
pub open spec fn position_from(keys: Seq<Seq<char>>, key: Seq<char>, from: int) -> int
    decreases keys.len() - from,
{
    if from < 0 || from >= keys.len() {
        keys.len() as int
    } else if keys[from] == key {
        from
    } else {
        position_from(keys, key, from + 1)
    }
}

/// The index of the first of `keys` that equals `key`; the length of `keys`
/// if there is none.
pub open spec fn position(keys: Seq<Seq<char>>, key: Seq<char>) -> int {
    position_from(keys, key, 0)
}

/// The keys of a list of pairs.
pub open spec fn pair_keys<V>(pairs: Seq<(Seq<char>, V)>) -> Seq<Seq<char>> {
    Seq::new(pairs.len(), |i: int| pairs[i].0)
}

/// The keys of a list of pairs whose keys are strings.
pub open spec fn owned_keys<V>(pairs: Seq<(String, V)>) -> Seq<Seq<char>> {
    Seq::new(pairs.len(), |i: int| pairs[i].0@)
}

/// `position_from` finds the first occurrence at or after `from`: the
/// result lies between `from` and the length, no key before it equals
/// `key`, and the key at it does.
pub proof fn lemma_position_from(keys: Seq<Seq<char>>, key: Seq<char>, from: int)
    requires
        0 <= from <= keys.len(),
    ensures
        from <= position_from(keys, key, from) <= keys.len(),
        forall|i: int| from <= i < position_from(keys, key, from) ==> #[trigger] keys[i] != key,
        position_from(keys, key, from) < keys.len() ==> keys[position_from(keys, key, from)]
            == key,
    decreases keys.len() - from,
{
    if from < keys.len() && keys[from] != key {
        lemma_position_from(keys, key, from + 1);
    }
}

/// `position` finds the first occurrence, if there is one.
pub proof fn lemma_position(keys: Seq<Seq<char>>, key: Seq<char>)
    ensures
        0 <= position(keys, key) <= keys.len(),
        forall|i: int| 0 <= i < position(keys, key) ==> #[trigger] keys[i] != key,
        position(keys, key) < keys.len() ==> keys[position(keys, key)] == key,
        position(keys, key) == keys.len() <==> !keys.contains(key),
{
    lemma_position_from(keys, key, 0);
    if position(keys, key) < keys.len() {
        assert(keys.contains(key));
    }
}

/// A key that occurs at `at` and nowhere before is found at `at`.
pub proof fn lemma_position_is(keys: Seq<Seq<char>>, key: Seq<char>, at: int)
    requires
        0 <= at < keys.len(),
        keys[at] == key,
        forall|i: int| 0 <= i < at ==> #[trigger] keys[i] != key,
    ensures
        position(keys, key) == at,
{
    lemma_position_from(keys, key, 0);
}

/// The index of the first pair that carries `key`.
pub fn find_key<V>(pairs: &Vec<(String, V)>, key: &str) -> (found: Option<usize>)
    ensures
        match found {
            Some(at) => at < pairs.len() && at == position(owned_keys(pairs@), key@),
            None => position(owned_keys(pairs@), key@) == pairs.len(),
        },
{
    let ghost keys = owned_keys(pairs@);
    let wanted = key.to_owned();
    let mut i: usize = 0;
    while i < pairs.len()
        invariant
            0 <= i <= pairs.len(),
            keys == owned_keys(pairs@),
            wanted@ == key@,
            position(keys, key@) == position_from(keys, key@, i as int),
        decreases pairs.len() - i,
    {
        if pairs[i].0 == wanted {
            return Some(i);
        }
        i = i + 1;
    }
    None
}

} // verus!
