//! An in-memory string-to-string key-value store: the flat mapping the
//! accessor operations run against, supporting point lookup, point
//! write/overwrite, point delete, full clear and a count of entries.

use vstd::prelude::*;

verus! {

/// One stored binding of a key to a value.
struct Entry {
    key: String,
    value: String,
}

/// A flat key-value store over strings. Its view is the mapping it holds,
/// from key characters to value characters.
pub struct Store {
    entries: Vec<Entry>,
}

/// No two entries bind the same key.
spec fn unique_keys(es: Seq<Entry>) -> bool {
    forall|i: int, j: int| 0 <= i < j < es.len() ==> es[i].key@ != es[j].key@
}

/// The mapping a sequence of entries holds, later entries overriding
/// earlier ones.
spec fn map_of(es: Seq<Entry>) -> Map<Seq<char>, Seq<char>>
    decreases es.len(),
{
    if es.len() == 0 {
        Map::empty()
    } else {
        map_of(es.drop_last()).insert(es.last().key@, es.last().value@)
    }
}

/// A key is bound in the mapping exactly when some entry carries it.
proof fn lemma_map_of_contains(es: Seq<Entry>)
    ensures
        forall|k: Seq<char>| #[trigger]
            map_of(es).contains_key(k) <==> (exists|j: int|
                0 <= j < es.len() && es[j].key@ == k),
    decreases es.len(),
{
    if es.len() > 0 {
        let es0 = es.drop_last();
        lemma_map_of_contains(es0);
        assert forall|k: Seq<char>| #[trigger]
            map_of(es).contains_key(k) <==> (exists|j: int|
                0 <= j < es.len() && es[j].key@ == k) by {
            assert(map_of(es) == map_of(es0).insert(es.last().key@, es.last().value@));
            if map_of(es).contains_key(k) {
                if k == es.last().key@ {
                    assert(es[es.len() - 1].key@ == k);
                } else {
                    assert(map_of(es0).contains_key(k));
                    let j = choose|j: int| 0 <= j < es0.len() && es0[j].key@ == k;
                    assert(es0[j] == es[j]);
                    assert(es[j].key@ == k);
                }
            }
            if exists|j: int| 0 <= j < es.len() && es[j].key@ == k {
                let j = choose|j: int| 0 <= j < es.len() && es[j].key@ == k;
                if j < es.len() - 1 {
                    assert(es0[j] == es[j]);
                    assert(es0[j].key@ == k);
                    assert(map_of(es0).contains_key(k));
                } else {
                    assert(k == es.last().key@);
                    assert(map_of(es).contains_key(k));
                }
            }
        };
    }
}

/// Under unique keys, the entry at index `i` gives the mapping's value at
/// its key.
proof fn lemma_map_of_index(es: Seq<Entry>, i: int)
    requires
        unique_keys(es),
        0 <= i < es.len(),
    ensures
        map_of(es).contains_key(es[i].key@),
        map_of(es)[es[i].key@] == es[i].value@,
    decreases es.len(),
{
    let es0 = es.drop_last();
    if i == es.len() - 1 {
    } else {
        assert forall|a: int, b: int| 0 <= a < b < es0.len() implies es0[a].key@ != es0[b].key@ by {
            assert(es[a].key@ != es[b].key@);
        };
        lemma_map_of_index(es0, i);
        assert(es[i].key@ != es[es.len() - 1].key@);
    }
}

/// Distinct indices carry distinct keys, in either order.
proof fn lemma_unique_distinct(es: Seq<Entry>, a: int, b: int)
    requires
        unique_keys(es),
        0 <= a < es.len(),
        0 <= b < es.len(),
        a != b,
    ensures
        es[a].key@ != es[b].key@,
{
    if a < b {
        assert(es[a].key@ != es[b].key@);
    } else {
        assert(es[b].key@ != es[a].key@);
    }
}

/// Under unique keys, removing the entry at index `i` removes exactly its
/// key from the mapping.
proof fn lemma_map_of_remove(es: Seq<Entry>, i: int)
    requires
        unique_keys(es),
        0 <= i < es.len(),
    ensures
        unique_keys(es.remove(i)),
        map_of(es.remove(i)) == map_of(es).remove(es[i].key@),
{
    let k0 = es[i].key@;
    let es2 = es.remove(i);
    es.remove_ensures(i);
    assert forall|a: int, b: int| 0 <= a < b < es2.len() implies es2[a].key@ != es2[b].key@ by {
        let a2: int = if a < i {
            a
        } else {
            a + 1
        };
        let b2: int = if b < i {
            b
        } else {
            b + 1
        };
        assert(es2[a] == es[a2]);
        assert(es2[b] == es[b2]);
        lemma_unique_distinct(es, a2, b2);
    };
    lemma_map_of_contains(es);
    lemma_map_of_contains(es2);
    assert forall|k: Seq<char>| #[trigger] map_of(es2).contains_key(k) implies map_of(
        es,
    ).remove(k0).contains_key(k) && map_of(es2)[k] == map_of(es).remove(k0)[k] by {
        let j = choose|j: int| 0 <= j < es2.len() && es2[j].key@ == k;
        let j2: int = if j < i {
            j
        } else {
            j + 1
        };
        assert(es2[j] == es[j2]);
        lemma_map_of_index(es2, j);
        lemma_map_of_index(es, j2);
        lemma_unique_distinct(es, j2, i);
        assert(k != k0);
    };
    assert forall|k: Seq<char>| #[trigger]
        map_of(es).remove(k0).contains_key(k) implies map_of(es2).contains_key(k) by {
        assert(map_of(es).contains_key(k) && k != k0);
        let j2 = choose|j2: int| 0 <= j2 < es.len() && es[j2].key@ == k;
        assert(j2 != i);
        let j: int = if j2 < i {
            j2
        } else {
            j2 - 1
        };
        assert(es2[j] == es[j2]);
        assert(es2[j].key@ == k);
    };
    assert(map_of(es2) =~= map_of(es).remove(k0));
}

/// Under unique keys, the mapping binds exactly as many keys as there are
/// entries.
proof fn lemma_map_of_card(es: Seq<Entry>)
    requires
        unique_keys(es),
    ensures
        map_of(es).dom().finite(),
        map_of(es).dom().len() == es.len(),
    decreases es.len(),
{
    if es.len() == 0 {
        assert(map_of(es).dom() =~= Set::<Seq<char>>::empty());
    } else {
        let es0 = es.drop_last();
        assert forall|a: int, b: int| 0 <= a < b < es0.len() implies es0[a].key@ != es0[b].key@ by {
            assert(es[a].key@ != es[b].key@);
        };
        lemma_map_of_card(es0);
        lemma_map_of_contains(es0);
        assert(!map_of(es0).contains_key(es.last().key@)) by {
            if exists|j: int| 0 <= j < es0.len() && es0[j].key@ == es.last().key@ {
                let j = choose|j: int| 0 <= j < es0.len() && es0[j].key@ == es.last().key@;
                lemma_unique_distinct(es, j, es.len() - 1);
            }
        };
        assert(map_of(es).dom() =~= map_of(es0).dom().insert(es.last().key@));
    }
}

impl View for Store {
    type V = Map<Seq<char>, Seq<char>>;

    closed spec fn view(&self) -> Map<Seq<char>, Seq<char>> {
        map_of(self.entries@)
    }
}

impl Store {
    /// The store's internal invariant: entry keys are pairwise distinct, so
    /// each key is bound at most once.
    pub closed spec fn wf(&self) -> bool {
        unique_keys(self.entries@)
    }

    /// An empty store.
    pub fn new() -> (r: Store)
        ensures
            r.wf(),
            r@ == Map::<Seq<char>, Seq<char>>::empty(),
    {
        Store { entries: Vec::new() }
    }

    /// The index of the entry carrying `key`, if any entry does.
    fn index_of(&self, key: &String) -> (r: Option<usize>)
        ensures
            match r {
                Some(i) => i < self.entries@.len() && self.entries@[i as int].key@ == key@,
                None => forall|j: int|
                    0 <= j < self.entries@.len() ==> self.entries@[j].key@ != key@,
            },
    {
        let n = self.entries.len();
        let mut i: usize = 0;
        while i < n
            invariant
                n == self.entries@.len(),
                i <= n,
                forall|j: int| 0 <= j < i ==> self.entries@[j].key@ != key@,
            decreases n - i,
        {
            if self.entries[i].key == *key {
                return Some(i);
            }
            i += 1;
        }
        None
    }

    /// Point lookup: the value bound to `key`, or nothing when `key` is
    /// unbound.
    pub fn get(&self, key: &String) -> (r: Option<String>)
        requires
            self.wf(),
        ensures
            r is Some <==> self@.contains_key(key@),
            r is Some ==> r->0@ == self@[key@],
    {
        proof {
            lemma_map_of_contains(self.entries@);
        }
        match self.index_of(key) {
            Some(i) => {
                proof {
                    lemma_map_of_index(self.entries@, i as int);
                }
                Some(self.entries[i].value.clone())
            },
            None => None,
        }
    }

    /// Point write: bind `key` to `value`, overwriting any existing binding.
    pub fn set(&mut self, key: String, value: String)
        requires
            old(self).wf(),
        ensures
            final(self).wf(),
            final(self)@ == old(self)@.insert(key@, value@),
    {
        self.delete(&key);
        proof {
            lemma_map_of_contains(self.entries@);
            assert(!map_of(self.entries@).contains_key(key@));
            assert(forall|j: int|
                0 <= j < self.entries@.len() ==> self.entries@[j].key@ != key@);
        }
        let ghost es: Seq<Entry> = self.entries@;
        self.entries.push(Entry { key, value });
        proof {
            assert forall|a: int, b: int|
                0 <= a < b < self.entries@.len() implies self.entries@[a].key@
                != self.entries@[b].key@ by {
                if b == self.entries@.len() - 1 {
                    assert(self.entries@[a] == es[a]);
                } else {
                    assert(self.entries@[a] == es[a]);
                    assert(self.entries@[b] == es[b]);
                }
            };
            assert(self.entries@.drop_last() =~= es);
            assert(self@ == map_of(es).insert(key@, value@));
            assert(old(self)@.remove(key@).insert(key@, value@) =~= old(self)@.insert(
                key@,
                value@,
            ));
        }
    }

    /// Point delete: unbind `key`; deleting an unbound key changes nothing.
    pub fn delete(&mut self, key: &String)
        requires
            old(self).wf(),
        ensures
            final(self).wf(),
            final(self)@ == old(self)@.remove(key@),
    {
        match self.index_of(key) {
            Some(i) => {
                proof {
                    lemma_map_of_remove(self.entries@, i as int);
                }
                self.entries.remove(i);
            },
            None => {
                proof {
                    lemma_map_of_contains(self.entries@);
                    assert(self@.remove(key@) =~= self@);
                }
            },
        }
    }

    /// Full clear: unbind every key.
    pub fn clear(&mut self)
        ensures
            final(self).wf(),
            final(self)@ == Map::<Seq<char>, Seq<char>>::empty(),
    {
        self.entries = Vec::new();
    }

    /// The number of entries held.
    pub fn length(&self) -> (r: usize)
        requires
            self.wf(),
        ensures
            r == self@.dom().len(),
    {
        proof {
            lemma_map_of_card(self.entries@);
        }
        self.entries.len()
    }
}

} // verus!
