//! Sequences of items with unique text keys, seen as maps from key to item.

use vstd::prelude::*;

use crate::text::str_equal;

verus! {

/// An item stored under a text key.
pub trait Keyed {
    /// The key of the item.
    spec fn key(&self) -> Seq<char>;

    /// The key of the item, as text.
    fn key_text(&self) -> (k: &str)
        ensures
            k@ == self.key(),
    ;
}

/// The keys of a sequence of items, in order.
pub open spec fn key_seq<T: Keyed>(s: Seq<T>) -> Seq<Seq<char>> {
    s.map_values(|c: T| c.key())
}

/// No identifier occurs twice.
pub open spec fn keys_unique<T: Keyed>(s: Seq<T>) -> bool {
    forall|i: int, j: int|
        0 <= i < s.len() && 0 <= j < s.len() && i != j ==> #[trigger] s[i].key() != #[trigger] s[j].key()
}

/// The map from key to item held by a sequence with unique keys.
pub open spec fn keyed_map<T: Keyed>(s: Seq<T>) -> Map<Seq<char>, T> {
    Map::new(
        |k: Seq<char>| exists|i: int| 0 <= i < s.len() && s[i].key() == k,
        |k: Seq<char>| s[choose|i: int| 0 <= i < s.len() && s[i].key() == k],
    )
}

pub proof fn lemma_map_index<T: Keyed>(s: Seq<T>, i: int)
    requires
        keys_unique(s),
        0 <= i < s.len(),
    ensures
        keyed_map(s).contains_key(s[i].key()),
        keyed_map(s)[s[i].key()] == s[i],
{
    let k = s[i].key();
    assert(0 <= i < s.len() && s[i].key() == k);
    let j = choose|j: int| 0 <= j < s.len() && s[j].key() == k;
    assert(j == i);
}

pub proof fn lemma_map_push<T: Keyed>(s: Seq<T>, c: T)
    requires
        keys_unique(s),
        !keyed_map(s).contains_key(c.key()),
    ensures
        keys_unique(s.push(c)),
        keyed_map(s.push(c)) == keyed_map(s).insert(c.key(), c),
{
    let t = s.push(c);
    assert forall|i: int, j: int|
        0 <= i < t.len() && 0 <= j < t.len() && i != j implies #[trigger] t[i].key() != #[trigger] t[j].key() by {
        if i < s.len() && j < s.len() {
            assert(t[i] == s[i] && t[j] == s[j]);
        } else if i < s.len() {
            assert(t[i] == s[i]);
            lemma_map_index(s, i);
        } else {
            assert(t[j] == s[j]);
            lemma_map_index(s, j);
        }
    }
    let m1 = keyed_map(t);
    let m2 = keyed_map(s).insert(c.key(), c);
    assert forall|k: Seq<char>| m1.contains_key(k) <==> m2.contains_key(k) by {
        if m2.contains_key(k) && k != c.key() {
            let i = choose|i: int| 0 <= i < s.len() && s[i].key() == k;
            assert(t[i] == s[i]);
        }
        if m1.contains_key(k) {
            let i = choose|i: int| 0 <= i < t.len() && t[i].key() == k;
            if i < s.len() {
                assert(t[i] == s[i]);
            }
        }
        if k == c.key() {
            assert(t[s.len() as int] == c);
        }
    }
    assert forall|k: Seq<char>| #[trigger] m1.contains_key(k) implies m1[k] == m2[k] by {
        let i = choose|i: int| 0 <= i < t.len() && t[i].key() == k;
        lemma_map_index(t, i);
        if i < s.len() {
            assert(t[i] == s[i]);
            lemma_map_index(s, i);
        }
    }
    assert(m1 =~= m2);
}

pub proof fn lemma_map_update<T: Keyed>(s: Seq<T>, i: int, c: T)
    requires
        keys_unique(s),
        0 <= i < s.len(),
        s[i].key() == c.key(),
    ensures
        keys_unique(s.update(i, c)),
        keyed_map(s.update(i, c)) == keyed_map(s).insert(c.key(), c),
{
    let t = s.update(i, c);
    assert forall|a: int, b: int|
        0 <= a < t.len() && 0 <= b < t.len() && a != b implies #[trigger] t[a].key() != #[trigger] t[b].key() by {
        assert(t[a].key() == s[a].key());
        assert(t[b].key() == s[b].key());
    }
    let m1 = keyed_map(t);
    let m2 = keyed_map(s).insert(c.key(), c);
    assert forall|k: Seq<char>| m1.contains_key(k) <==> m2.contains_key(k) by {
        if m2.contains_key(k) && k != c.key() {
            let j = choose|j: int| 0 <= j < s.len() && s[j].key() == k;
            assert(t[j].key() == s[j].key());
        }
        if m1.contains_key(k) {
            let j = choose|j: int| 0 <= j < t.len() && t[j].key() == k;
            assert(t[j].key() == s[j].key());
        }
        if k == c.key() {
            assert(t[i] == c);
        }
    }
    assert forall|k: Seq<char>| #[trigger] m1.contains_key(k) implies m1[k] == m2[k] by {
        let j = choose|j: int| 0 <= j < t.len() && t[j].key() == k;
        lemma_map_index(t, j);
        if j != i {
            assert(t[j] == s[j]);
            lemma_map_index(s, j);
        }
    }
    assert(m1 =~= m2);
}

pub proof fn lemma_map_remove<T: Keyed>(s: Seq<T>, i: int)
    requires
        keys_unique(s),
        0 <= i < s.len(),
    ensures
        keys_unique(s.remove(i)),
        keyed_map(s.remove(i)) == keyed_map(s).remove(s[i].key()),
{
    let t = s.remove(i);
    let k0 = s[i].key();
    assert forall|a: int| 0 <= a < t.len() implies #[trigger] t[a] == s[if a < i { a } else { a + 1 }] by {}
    assert forall|a: int, b: int|
        0 <= a < t.len() && 0 <= b < t.len() && a != b implies #[trigger] t[a].key() != #[trigger] t[b].key() by {
        assert(t[a] == s[if a < i { a } else { a + 1 }]);
        assert(t[b] == s[if b < i { b } else { b + 1 }]);
    }
    let m1 = keyed_map(t);
    let m2 = keyed_map(s).remove(k0);
    assert forall|k: Seq<char>| m1.contains_key(k) <==> m2.contains_key(k) by {
        if m2.contains_key(k) {
            let j = choose|j: int| 0 <= j < s.len() && s[j].key() == k;
            assert(j != i);
            let a = if j < i { j } else { j - 1 };
            assert(t[a] == s[j]);
        }
        if m1.contains_key(k) {
            let a = choose|a: int| 0 <= a < t.len() && t[a].key() == k;
            let j = if a < i { a } else { a + 1 };
            assert(t[a] == s[j]);
            assert(j != i);
        }
    }
    assert forall|k: Seq<char>| #[trigger] m1.contains_key(k) implies m1[k] == m2[k] by {
        let a = choose|a: int| 0 <= a < t.len() && t[a].key() == k;
        lemma_map_index(t, a);
        let j = if a < i { a } else { a + 1 };
        assert(t[a] == s[j]);
        lemma_map_index(s, j);
    }
    assert(m1 =~= m2);
}

pub proof fn lemma_map_len<T: Keyed>(s: Seq<T>)
    requires
        keys_unique(s),
    ensures
        keyed_map(s).dom() == key_seq(s).to_set(),
        keyed_map(s).dom().finite(),
        keyed_map(s).len() == s.len(),
{
    vstd::seq_lib::seq_to_set_is_finite(key_seq(s));
    let ids = key_seq(s);
    assert(keyed_map(s).dom() =~= ids.to_set()) by {
        assert forall|k: Seq<char>| keyed_map(s).dom().contains(k) <==> ids.to_set().contains(k) by {
            if ids.contains(k) {
                let i = choose|i: int| 0 <= i < ids.len() && ids[i] == k;
                assert(s[i].key() == k);
            }
            if keyed_map(s).dom().contains(k) {
                let i = choose|i: int| 0 <= i < s.len() && s[i].key() == k;
                assert(ids[i] == k);
            }
        }
    }
    assert(ids.no_duplicates()) by {
        assert forall|i: int, j: int| 0 <= i < ids.len() && 0 <= j < ids.len() && i != j implies ids[i] != ids[j] by {
            assert(s[i].key() != s[j].key());
        }
    }
    ids.unique_seq_to_set();
}

/// The sequence after storing `item`: it replaces the item with the same key,
/// or is appended when no item has that key.
pub open spec fn keyed_insert<T: Keyed>(s: Seq<T>, item: T) -> Seq<T> {
    if exists|i: int| 0 <= i < s.len() && s[i].key() == item.key() {
        s.update(choose|i: int| 0 <= i < s.len() && s[i].key() == item.key(), item)
    } else {
        s.push(item)
    }
}

/// Storing an item under its key makes the map send that key to the item and
/// leaves every other key as it was.
pub proof fn lemma_keyed_insert<T: Keyed>(s: Seq<T>, item: T)
    requires
        keys_unique(s),
    ensures
        keys_unique(keyed_insert(s, item)),
        keyed_map(keyed_insert(s, item)) == keyed_map(s).insert(item.key(), item),
{
    if exists|i: int| 0 <= i < s.len() && s[i].key() == item.key() {
        let i = choose|i: int| 0 <= i < s.len() && s[i].key() == item.key();
        lemma_map_update(s, i, item);
    } else {
        lemma_map_push(s, item);
    }
}

/// Position of the item stored under key `k`.
pub fn find_key<T: Keyed>(v: &Vec<T>, k: &str) -> (r: Option<usize>)
    ensures
        match r {
            Some(i) => i < v@.len() && v@[i as int].key() == k@,
            None => forall|j: int| 0 <= j < v@.len() ==> #[trigger] v@[j].key() != k@,
        },
        r is None ==> !keyed_map(v@).contains_key(k@),
{
    let mut i: usize = 0;
    while i < v.len()
        invariant
            i <= v@.len(),
            forall|j: int| 0 <= j < i ==> #[trigger] v@[j].key() != k@,
        decreases v@.len() - i,
    {
        let ki = v[i].key_text();
        if str_equal(ki, k) {
            return Some(i);
        }
        i = i + 1;
    }
    None
}

/// Store `item` under its key, replacing what was stored there.
pub fn insert_keyed<T: Keyed>(v: &mut Vec<T>, item: T)
    requires
        keys_unique(old(v)@),
    ensures
        keys_unique(final(v)@),
        final(v)@ == keyed_insert(old(v)@, item),
        keyed_map(final(v)@) == keyed_map(old(v)@).insert(item.key(), item),
{
    let ghost s = v@;
    let found = find_key(v, item.key_text());
    match found {
        Some(i) => {
            proof {
                lemma_map_update(s, i as int, item);
                let j = choose|j: int| 0 <= j < s.len() && s[j].key() == item.key();
                if j != i {
                    assert(s[j].key() == s[i as int].key());
                }
            }
            v.set(i, item);
        },
        None => {
            proof {
                lemma_map_push(s, item);
            }
            v.push(item);
        },
    }
}

} // verus!
