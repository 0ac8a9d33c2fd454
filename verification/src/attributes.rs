//! Key-ordered string-to-string mappings.

use crate::text::{
    lemma_lex_irreflexive, lemma_lex_total, lemma_lex_transitive, lex_less, same_text,
    text_before,
};
use vstd::prelude::*;

verus! {

/// A mapping from string keys to string values that keeps its entries in
/// ascending order of their keys.
#[derive(Debug)]
pub struct AttributeMap {
    entries: Vec<(String, String)>,
}

/// The keys of `entries` ascend strictly.
spec fn keys_ascend(entries: Seq<(String, String)>) -> bool {
    forall|i: int, j: int|
        0 <= i < j < entries.len() ==> lex_less(
            (#[trigger] entries[i]).0@,
            (#[trigger] entries[j]).0@,
        )
}

/// Some entry of `entries` has the key `key`.
spec fn has_key(entries: Seq<(String, String)>, key: Seq<char>) -> bool {
    exists|i: int| 0 <= i < entries.len() && (#[trigger] entries[i]).0@ == key
}

/// The position of an entry with the key `key`.
spec fn position_of(entries: Seq<(String, String)>, key: Seq<char>) -> int {
    choose|i: int| 0 <= i < entries.len() && (#[trigger] entries[i]).0@ == key
}

/// The mapping that a list of entries stands for.
spec fn entries_map(entries: Seq<(String, String)>) -> Map<Seq<char>, Seq<char>> {
    Map::new(
        |key: Seq<char>| has_key(entries, key),
        |key: Seq<char>| entries[position_of(entries, key)].1@,
    )
}

/// In an ascending list every entry is found under its own key.
proof fn lemma_entry_found(entries: Seq<(String, String)>, i: int)
    requires
        keys_ascend(entries),
        0 <= i < entries.len(),
    ensures
        entries_map(entries).dom().contains(entries[i].0@),
        entries_map(entries)[entries[i].0@] == entries[i].1@,
        position_of(entries, entries[i].0@) == i,
{
    let key = entries[i].0@;
    assert(has_key(entries, key));
    let p = position_of(entries, key);
    lemma_lex_irreflexive(key);
    if p < i {
        assert(lex_less(entries[p].0@, entries[i].0@));
    } else if i < p {
        assert(lex_less(entries[i].0@, entries[p].0@));
    }
}

/// The mapping of a list of entries has finitely many keys, as many as the
/// list has entries when its keys ascend.
proof fn lemma_entries_map_size(entries: Seq<(String, String)>)
    requires
        keys_ascend(entries),
    ensures
        entries_map(entries).dom().finite(),
        entries_map(entries).dom().len() == entries.len(),
    decreases entries.len(),
{
    let dom = entries_map(entries).dom();
    if entries.len() == 0 {
        assert(dom =~= Set::<Seq<char>>::empty());
    } else {
        let front = entries.drop_last();
        let last = entries.last();
        lemma_entries_map_size(front);
        let front_dom = entries_map(front).dom();
        assert(!front_dom.contains(last.0@)) by {
            if has_key(front, last.0@) {
                let p = position_of(front, last.0@);
                assert(front[p] == entries[p]);
                assert(lex_less(entries[p].0@, entries[entries.len() - 1].0@));
                lemma_lex_irreflexive(last.0@);
            }
        }
        assert(dom =~= front_dom.insert(last.0@)) by {
            assert forall|key: Seq<char>| dom.contains(key) implies front_dom.insert(
                last.0@,
            ).contains(key) by {
                let p = position_of(entries, key);
                if p < entries.len() - 1 {
                    assert(front[p] == entries[p]);
                    assert(has_key(front, key));
                }
            }
            assert forall|key: Seq<char>|
                front_dom.insert(last.0@).contains(key) implies dom.contains(key) by {
                if key == last.0@ {
                    assert(entries[entries.len() - 1].0@ == key);
                } else {
                    let p = position_of(front, key);
                    assert(front[p] == entries[p]);
                }
            }
        }
    }
}

impl View for AttributeMap {
    type V = Map<Seq<char>, Seq<char>>;

    closed spec fn view(&self) -> Map<Seq<char>, Seq<char>> {
        entries_map(self.entries@)
    }
}

impl AttributeMap {
    /// The keys of the entries ascend strictly.
    #[verifier::type_invariant]
    spec fn ordered(self) -> bool {
        keys_ascend(self.entries@)
    }

    /// The entries as pairs of key and value, in ascending order of the keys.
    pub closed spec fn pairs(self) -> Seq<(Seq<char>, Seq<char>)> {
        self.entries@.map_values(|e: (String, String)| (e.0@, e.1@))
    }

    /// The empty mapping.
    pub fn new() -> (m: Self)
        ensures
            m@ == Map::<Seq<char>, Seq<char>>::empty(),
            m.pairs() == Seq::<(Seq<char>, Seq<char>)>::empty(),
    {
        let m = AttributeMap { entries: Vec::new() };
        assert(m@ =~= Map::<Seq<char>, Seq<char>>::empty());
        assert(m.pairs() =~= Seq::<(Seq<char>, Seq<char>)>::empty());
        m
    }

    /// The number of entries.
    pub fn len(&self) -> (n: usize)
        ensures
            self@.dom().finite(),
            n == self@.dom().len(),
            n == self.pairs().len(),
    {
        proof {
            use_type_invariant(self);
            lemma_entries_map_size(self.entries@);
        }
        self.entries.len()
    }

    /// The value stored under `key`, if there is one.
    pub fn get(&self, key: &str) -> (found: Option<&String>)
        ensures
            found is Some <==> self@.dom().contains(key@),
            found matches Some(value) ==> value@ == self@[key@],
    {
        proof {
            use_type_invariant(self);
        }
        let mut i: usize = 0;
        while i < self.entries.len()
            invariant
                i <= self.entries.len(),
                keys_ascend(self.entries@),
                forall|j: int| 0 <= j < i ==> (#[trigger] self.entries@[j]).0@ != key@,
            decreases self.entries.len() - i,
        {
            if same_text(self.entries[i].0.as_str(), key) {
                proof {
                    lemma_entry_found(self.entries@, i as int);
                }
                return Some(&self.entries[i].1);
            }
            i += 1;
        }
        None
    }

    /// Stores `value` under `key`, in place of any value stored there before.
    pub fn insert(&mut self, key: String, value: String)
        ensures
            final(self)@ == old(self)@.insert(key@, value@),
    {
        proof {
            use_type_invariant(&*self);
        }
        let mut entries: Vec<(String, String)> = Vec::new();
        std::mem::swap(&mut entries, &mut self.entries);
        let ghost before = entries@;
        let mut i: usize = 0;
        while i < entries.len() && text_before(entries[i].0.as_str(), key.as_str())
            invariant
                i <= entries.len(),
                entries@ == before,
                forall|j: int| 0 <= j < i ==> lex_less((#[trigger] before[j]).0@, key@),
            decreases entries.len() - i,
        {
            i += 1;
        }
        let ghost k = key@;
        let ghost v = value@;
        if i < entries.len() && same_text(entries[i].0.as_str(), key.as_str()) {
            entries.set(i, (key, value));
            proof {
                let after = entries@;
                assert(keys_ascend(after)) by {
                    assert forall|p: int, q: int| 0 <= p < q < after.len() implies lex_less(
                        (#[trigger] after[p]).0@,
                        (#[trigger] after[q]).0@,
                    ) by {
                        assert(after[p].0@ == before[p].0@);
                        assert(after[q].0@ == before[q].0@);
                    }
                }
                assert(entries_map(after) =~= entries_map(before).insert(k, v)) by {
                    lemma_same_keys_update(before, after, i as int);
                }
            }
        } else {
            proof {
                if i < before.len() {
                    lemma_lex_total(before[i as int].0@, k);
                    assert(lex_less(k, before[i as int].0@));
                }
            }
            entries.insert(i, (key, value));
            proof {
                let after = entries@;
                lemma_insert_entry(before, after, i as int);
            }
        }
        self.entries = entries;
    }

    /// Stores every entry of `other`; where both hold a key, the value of
    /// `other` stays.
    pub fn extend(&mut self, other: AttributeMap)
        ensures
            final(self)@ == old(self)@.union_prefer_right(other@),
    {
        proof {
            use_type_invariant(&other);
        }
        let mut i: usize = 0;
        assert(entries_map(other.entries@.take(0)) =~= Map::<Seq<char>, Seq<char>>::empty());
        assert(self@ =~= old(self)@.union_prefer_right(Map::<Seq<char>, Seq<char>>::empty()));
        while i < other.entries.len()
            invariant
                i <= other.entries.len(),
                keys_ascend(other.entries@),
                self@ == old(self)@.union_prefer_right(entries_map(other.entries@.take(i as int))),
            decreases other.entries.len() - i,
        {
            let key = other.entries[i].0.clone();
            let value = other.entries[i].1.clone();
            proof {
                lemma_next_entry(other.entries@, i as int);
            }
            let ghost merged = self@;
            let ghost taken = entries_map(other.entries@.take(i as int));
            self.insert(key, value);
            proof {
                assert(self@ =~= old(self)@.union_prefer_right(taken.insert(key@, value@)));
            }
            i += 1;
        }
        proof {
            assert(other.entries@.take(i as int) == other.entries@);
        }
    }

    /// The entry at position `i` in ascending order of the keys.
    pub fn entry_at(&self, i: usize) -> (entry: (&String, &String))
        requires
            i < self.pairs().len(),
        ensures
            (entry.0@, entry.1@) == self.pairs()[i as int],
            self@.dom().contains(entry.0@),
            self@[entry.0@] == entry.1@,
            i > 0 ==> lex_less(self.pairs()[i - 1].0, entry.0@),
    {
        proof {
            use_type_invariant(self);
            lemma_entry_found(self.entries@, i as int);
            if i > 0 {
                assert(lex_less(self.entries@[i - 1].0@, self.entries@[i as int].0@));
            }
        }
        (&self.entries[i].0, &self.entries[i].1)
    }
}

impl Clone for AttributeMap {
    fn clone(&self) -> (m: Self)
        ensures
            m@ == self@,
            m.pairs() == self.pairs(),
    {
        proof {
            use_type_invariant(self);
        }
        let mut entries: Vec<(String, String)> = Vec::new();
        let mut i: usize = 0;
        while i < self.entries.len()
            invariant
                i <= self.entries.len(),
                entries@ == self.entries@.take(i as int),
            decreases self.entries.len() - i,
        {
            entries.push((self.entries[i].0.clone(), self.entries[i].1.clone()));
            proof {
                assert(entries@ =~= self.entries@.take(i + 1));
            }
            i += 1;
        }
        proof {
            assert(self.entries@.take(i as int) == self.entries@);
        }
        AttributeMap { entries }
    }
}

impl Default for AttributeMap {
    fn default() -> (m: Self)
        ensures
            m@ == Map::<Seq<char>, Seq<char>>::empty(),
    {
        AttributeMap::new()
    }
}

/// The first `i + 1` entries stand for the mapping of the first `i` with the
/// entry at `i` stored in it.
proof fn lemma_next_entry(entries: Seq<(String, String)>, i: int)
    requires
        keys_ascend(entries),
        0 <= i < entries.len(),
    ensures
        keys_ascend(entries.take(i)),
        keys_ascend(entries.take(i + 1)),
        entries_map(entries.take(i + 1)) =~= entries_map(entries.take(i)).insert(
            entries[i].0@,
            entries[i].1@,
        ),
{
    let before = entries.take(i);
    let after = entries.take(i + 1);
    assert(keys_ascend(before)) by {
        assert forall|p: int, q: int| 0 <= p < q < before.len() implies lex_less(
            (#[trigger] before[p]).0@,
            (#[trigger] before[q]).0@,
        ) by {
            assert(before[p] == entries[p] && before[q] == entries[q]);
        }
    }
    assert(after =~= before.insert(i, after[i]));
    assert forall|j: int| 0 <= j < i implies lex_less((#[trigger] before[j]).0@, after[i].0@) by {
        assert(before[j] == entries[j] && after[i] == entries[i]);
    }
    lemma_insert_entry(before, after, i);
}

/// Replacing the value of the entry at `i` updates the mapping at its key.
proof fn lemma_same_keys_update(before: Seq<(String, String)>, after: Seq<(String, String)>, i: int)
    requires
        keys_ascend(before),
        keys_ascend(after),
        0 <= i < before.len(),
        after.len() == before.len(),
        after[i].0@ == before[i].0@,
        forall|j: int| 0 <= j < before.len() && j != i ==> after[j] == before[j],
    ensures
        entries_map(after) =~= entries_map(before).insert(after[i].0@, after[i].1@),
{
    let target = entries_map(before).insert(after[i].0@, after[i].1@);
    assert forall|key: Seq<char>|
        entries_map(after).dom().contains(key) implies target.dom().contains(key) by {
        let p = position_of(after, key);
        if p != i {
            assert(before[p].0@ == key);
        }
    }
    assert forall|key: Seq<char>| target.dom().contains(key) implies entries_map(
        after,
    ).dom().contains(key) by {
        if key == after[i].0@ {
            assert(after[i].0@ == key);
        } else {
            let p = position_of(before, key);
            assert(after[p].0@ == key);
        }
    }
    assert forall|key: Seq<char>| entries_map(after).dom().contains(key) implies entries_map(
        after,
    )[key] == target[key] by {
        let p = position_of(after, key);
        lemma_entry_found(after, p);
        if p != i {
            lemma_entry_found(before, p);
            lemma_lex_irreflexive(key);
            if p < i {
                assert(lex_less(after[p].0@, after[i].0@));
            } else {
                assert(lex_less(after[i].0@, after[p].0@));
            }
        }
    }
}

/// Placing a new key between its neighbours keeps the order and adds it to
/// the mapping.
proof fn lemma_insert_entry(before: Seq<(String, String)>, after: Seq<(String, String)>, i: int)
    requires
        keys_ascend(before),
        0 <= i <= before.len(),
        after == before.insert(i, after[i]),
        forall|j: int| 0 <= j < i ==> lex_less((#[trigger] before[j]).0@, after[i].0@),
        i < before.len() ==> lex_less(after[i].0@, before[i].0@),
    ensures
        keys_ascend(after),
        entries_map(after) =~= entries_map(before).insert(after[i].0@, after[i].1@),
{
    let k = after[i].0@;
    assert forall|j: int| i <= j < before.len() implies lex_less(k, (#[trigger] before[j]).0@) by {
        if j > i {
            assert(lex_less(before[i].0@, before[j].0@));
            lemma_lex_transitive(k, before[i].0@, before[j].0@);
        }
    }
    assert(keys_ascend(after)) by {
        assert forall|p: int, q: int| 0 <= p < q < after.len() implies lex_less(
            (#[trigger] after[p]).0@,
            (#[trigger] after[q]).0@,
        ) by {
            if q < i {
                assert(after[p] == before[p] && after[q] == before[q]);
            } else if q == i {
                assert(after[p] == before[p]);
            } else if p < i {
                assert(after[p] == before[p] && after[q] == before[q - 1]);
            } else if p == i {
                assert(after[q] == before[q - 1]);
            } else {
                assert(after[p] == before[p - 1] && after[q] == before[q - 1]);
            }
        }
    }
    let target = entries_map(before).insert(k, after[i].1@);
    assert forall|key: Seq<char>|
        entries_map(after).dom().contains(key) implies target.dom().contains(key) by {
        let p = position_of(after, key);
        if p < i {
            assert(before[p].0@ == key);
        } else if p > i {
            assert(before[p - 1].0@ == key);
        }
    }
    assert forall|key: Seq<char>| target.dom().contains(key) implies entries_map(
        after,
    ).dom().contains(key) by {
        if key == k {
            assert(after[i].0@ == key);
        } else {
            let p = position_of(before, key);
            if p < i {
                assert(after[p].0@ == key);
            } else {
                assert(after[p + 1].0@ == key);
            }
        }
    }
    assert forall|key: Seq<char>| entries_map(after).dom().contains(key) implies entries_map(
        after,
    )[key] == target[key] by {
        let p = position_of(after, key);
        lemma_entry_found(after, p);
        if p < i {
            assert(after[p] == before[p]);
            lemma_entry_found(before, p);
            lemma_lex_irreflexive(key);
        } else if p > i {
            assert(after[p] == before[p - 1]);
            lemma_entry_found(before, p - 1);
            lemma_lex_irreflexive(key);
        }
    }
}

} // verus!

