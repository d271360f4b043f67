//! A map from texts to values.
use crate::text::same_text;
use vstd::prelude::*;

verus! {

/// A map from texts to values. No text occurs twice among its keys.
#[derive(Debug)]
pub struct TextMap<V> {
    entries: Vec<(String, V)>,
}

impl<V> View for TextMap<V> {
    type V = Map<Seq<char>, V>;

    closed spec fn view(&self) -> Map<Seq<char>, V> {
        contents(self.entries@)
    }
}

/// Whether the key stands at the given place.
spec fn key_at<V>(entries: Seq<(String, V)>, i: int, key: Seq<char>) -> bool {
    0 <= i < entries.len() && entries[i].0@ == key
}

/// The map that the entries make.
spec fn contents<V>(entries: Seq<(String, V)>) -> Map<Seq<char>, V> {
    Map::new(
        |key: Seq<char>| exists|i: int| key_at(entries, i, key),
        |key: Seq<char>| entries[choose|i: int| key_at(entries, i, key)].1,
    )
}

spec fn distinct<V>(entries: Seq<(String, V)>) -> bool {
    forall|i: int, j: int, key: Seq<char>|
        #[trigger] key_at(entries, i, key) && #[trigger] key_at(entries, j, key) ==> i == j
}

proof fn lemma_found<V>(entries: Seq<(String, V)>, i: int)
    requires
        distinct(entries),
        0 <= i < entries.len(),
    ensures
        contents(entries).contains_key(entries[i].0@),
        contents(entries)[entries[i].0@] == entries[i].1,
{
    assert(key_at(entries, i, entries[i].0@));
}

impl<V> TextMap<V> {
    #[verifier::type_invariant]
    spec fn well_formed(self) -> bool {
        distinct(self.entries@)
    }

    pub fn new() -> (r: TextMap<V>)
        ensures
            r@ == Map::<Seq<char>, V>::empty(),
    {
        let entries: Vec<(String, V)> = Vec::new();
        proof {
            assert(contents(entries@) =~= Map::<Seq<char>, V>::empty());
        }
        TextMap { entries }
    }

    /// The place of the key among the entries.
    fn position(entries: &Vec<(String, V)>, key: &str) -> (r: Option<usize>)
        ensures
            match r {
                Some(i) => key_at(entries@, i as int, key@),
                None => forall|i: int| !#[trigger] key_at(entries@, i, key@),
            },
    {
        let mut i: usize = 0;
        while i < entries.len()
            invariant
                i <= entries@.len(),
                forall|k: int| 0 <= k < i ==> !#[trigger] key_at(entries@, k, key@),
            decreases entries@.len() - i,
        {
            if same_text(entries[i].0.as_str(), key) {
                return Some(i);
            }
            i += 1;
        }
        None
    }

    pub fn get(&self, key: &str) -> (r: Option<&V>)
        ensures
            match r {
                Some(value) => self@.contains_key(key@) && *value == self@[key@],
                None => !self@.contains_key(key@),
            },
    {
        proof {
            use_type_invariant(self);
        }
        match Self::position(&self.entries, key) {
            Some(i) => {
                proof {
                    lemma_found(self.entries@, i as int);
                }
                Some(&self.entries[i].1)
            },
            None => None,
        }
    }

    /// Puts the value under the key, in place of the one that was there.
    pub fn insert(&mut self, key: String, value: V)
        ensures
            final(self)@ == old(self)@.insert(key@, value),
    {
        proof {
            use_type_invariant(&*self);
        }
        let mut entries: Vec<(String, V)> = Vec::new();
        std::mem::swap(&mut entries, &mut self.entries);
        let ghost before = entries@;
        let ghost k = key@;
        match Self::position(&entries, key.as_str()) {
            Some(i) => {
                entries.set(i, (key, value));
                proof {
                    assert forall|j: int, c: Seq<char>|
                        #[trigger] key_at(entries@, j, c) == key_at(before, j, c) by {}
                    assert(contents(entries@) =~= contents(before).insert(k, value)) by {
                        lemma_found(entries@, i as int);
                        lemma_same_elsewhere(before, entries@, i as int);
                    }
                }
            },
            None => {
                entries.push((key, value));
                proof {
                    let last = before.len() as int;
                    assert forall|j: int, c: Seq<char>|
                        #[trigger] key_at(entries@, j, c) == (key_at(before, j, c) || (j == last
                            && c == k)) by {}
                    assert(contents(entries@) =~= contents(before).insert(k, value)) by {
                        lemma_found(entries@, last);
                        lemma_same_elsewhere(before, entries@, last);
                    }
                }
            },
        }
        self.entries = entries;
    }

    /// Takes the value under the key out of the map.
    pub fn remove(&mut self, key: &str) -> (r: Option<V>)
        ensures
            match r {
                Some(value) => old(self)@.contains_key(key@) && value == old(self)@[key@],
                None => !old(self)@.contains_key(key@),
            },
            final(self)@ == old(self)@.remove(key@),
    {
        proof {
            use_type_invariant(&*self);
        }
        let mut entries: Vec<(String, V)> = Vec::new();
        std::mem::swap(&mut entries, &mut self.entries);
        let ghost before = entries@;
        match Self::position(&entries, key) {
            Some(i) => {
                let taken = entries.remove(i);
                proof {
                    assert forall|j: int, c: Seq<char>| #[trigger]
                        key_at(entries@, j, c) == (if j < i {
                            key_at(before, j, c)
                        } else {
                            key_at(before, j + 1, c)
                        }) by {}
                    lemma_found(before, i as int);
                    lemma_removed(before, entries@, i as int);
                }
                self.entries = entries;
                Some(taken.1)
            },
            None => {
                proof {
                    assert(contents(before).remove(key@) =~= contents(before));
                }
                self.entries = entries;
                None
            },
        }
    }
}

/// Entries that agree but for one place hold the same under all other keys.
proof fn lemma_same_elsewhere<V>(before: Seq<(String, V)>, after: Seq<(String, V)>, at: int)
    requires
        distinct(before),
        distinct(after),
        0 <= at < after.len(),
        before.len() <= after.len() <= before.len() + 1,
        at < before.len() ==> before[at].0@ == after[at].0@,
        after.len() > before.len() ==> at == before.len(),
        forall|j: int| 0 <= j < before.len() && j != at ==> before[j] == after[j],
    ensures
        forall|c: Seq<char>|
            c != after[at].0@ ==> contents(before).contains_key(c) == #[trigger] contents(
                after,
            ).contains_key(c),
        forall|c: Seq<char>|
            c != after[at].0@ && contents(before).contains_key(c) ==> contents(before)[c]
                == #[trigger] contents(after)[c],
{
    assert forall|c: Seq<char>| c != after[at].0@ implies contents(before).contains_key(c)
        == #[trigger] contents(after).contains_key(c) by {
        if contents(before).contains_key(c) {
            let i = choose|i: int| key_at(before, i, c);
            assert(key_at(after, i, c));
        }
        if contents(after).contains_key(c) {
            let i = choose|i: int| key_at(after, i, c);
            assert(key_at(before, i, c));
        }
    }
    assert forall|c: Seq<char>|
        c != after[at].0@ && contents(before).contains_key(c) implies contents(before)[c]
        == #[trigger] contents(after)[c] by {
        let i = choose|i: int| key_at(before, i, c);
        assert(key_at(after, i, c));
        lemma_found(before, i);
        lemma_found(after, i);
    }
}

proof fn lemma_removed<V>(before: Seq<(String, V)>, after: Seq<(String, V)>, at: int)
    requires
        distinct(before),
        0 <= at < before.len(),
        after == before.remove(at),
        distinct(after),
    ensures
        contents(after) == contents(before).remove(before[at].0@),
{
    let gone = before[at].0@;
    let m = contents(before).remove(gone);
    assert forall|c: Seq<char>| contents(after).contains_key(c) == #[trigger] m.contains_key(
        c,
    ) by {
        if contents(after).contains_key(c) {
            let i = choose|i: int| key_at(after, i, c);
            let j = if i < at {
                i
            } else {
                i + 1
            };
            assert(key_at(before, j, c));
            if c == gone {
                assert(key_at(before, at, c));
            }
        }
        if m.contains_key(c) {
            let i = choose|i: int| key_at(before, i, c);
            if i < at {
                assert(key_at(after, i, c));
            } else {
                assert(i != at);
                assert(key_at(after, i - 1, c));
            }
        }
    }
    assert forall|c: Seq<char>| m.contains_key(c) implies contents(after)[c] == #[trigger] m[c] by {
        let i = choose|i: int| key_at(before, i, c);
        lemma_found(before, i);
        if i < at {
            assert(key_at(after, i, c));
            lemma_found(after, i);
        } else {
            assert(key_at(after, i - 1, c));
            lemma_found(after, i - 1);
        }
    }
    assert(contents(after) =~= m);
}

} // verus!
