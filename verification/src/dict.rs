//! A dictionary that keeps its names in the order in which they came.

use crate::text::str_eq;
use vstd::prelude::*;

verus! {

/// The names of a list of entries.
pub open spec fn names_of<V>(entries: Seq<(String, V)>) -> Seq<Seq<char>> {
    entries.map_values(|e: (String, V)| e.0@)
}

/// The entries of a list as a map, where no name occurs twice.
pub open spec fn entries_map<V>(entries: Seq<(String, V)>) -> Map<Seq<char>, V> {
    Map::new(
        |name: Seq<char>| names_of(entries).contains(name),
        |name: Seq<char>| entries[names_of(entries).index_of(name)].1,
    )
}

/// The names that the map binds.
pub open spec fn known<V>(names: Seq<Seq<char>>, map: Map<Seq<char>, V>) -> Seq<Seq<char>> {
    names.filter(|n: Seq<char>| map.contains_key(n))
}

/// The known names are the names that the map binds.
pub proof fn lemma_known<V>(names: Seq<Seq<char>>, map: Map<Seq<char>, V>)
    ensures
        forall|n: Seq<char>| #[trigger]
            known(names, map).contains(n) <==> names.contains(n) && map.contains_key(n),
    decreases names.len(),
{
    reveal(Seq::filter);
    if names.len() > 0 {
        let rest = names.drop_last();
        let last = names.last();
        lemma_known(rest, map);
        assert forall|n: Seq<char>| #[trigger] known(names, map).contains(n) <==> names.contains(n)
            && map.contains_key(n) by {
            assert(known(names, map) == if map.contains_key(last) {
                known(rest, map).push(last)
            } else {
                known(rest, map)
            });
            assert(names[names.len() - 1] == last);
            if names.contains(n) && n != last {
                let i = names.index_of(n);
                assert(rest[i] == n);
            }
            if rest.contains(n) {
                let i = rest.index_of(n);
                assert(names[i] == n);
            }
            if known(names, map).contains(n) && n != last {
                let i = known(names, map).index_of(n);
                assert(known(rest, map)[i] == n);
            }
            if known(rest, map).contains(n) {
                let i = known(rest, map).index_of(n);
                assert(known(names, map)[i] == n);
            }
            if map.contains_key(last) {
                assert(known(names, map)[known(rest, map).len() as int] == last);
            }
        }
    }
}

/// Replacing the entry of a name, or adding one where there is none, binds the name in the map.
proof fn lemma_insert<V>(
    before: Seq<(String, V)>,
    after: Seq<(String, V)>,
    name: Seq<char>,
    value: V,
)
    requires
        names_of(before).no_duplicates(),
        names_of(before).contains(name) ==> exists|i: int|
            0 <= i < before.len() && #[trigger] names_of(before)[i] == name && after.len()
                == before.len() && names_of(after) == names_of(before) && after[i].1 == value && (
            forall|j: int| 0 <= j < before.len() && j != i ==> after[j] == before[j]),
        !names_of(before).contains(name) ==> after.len() == before.len() + 1 && after.last().0@
            == name && after.last().1 == value && after.drop_last() == before,
    ensures
        names_of(after).no_duplicates(),
        entries_map(after) == entries_map(before).insert(name, value),
{
    let old_names = names_of(before);
    let new_names = names_of(after);
    if old_names.contains(name) {
        assert forall|n: Seq<char>| #[trigger] entries_map(after).contains_key(n) implies entries_map(
            after,
        )[n] == entries_map(before).insert(name, value)[n] by {
            let k = new_names.index_of(n);
            assert(new_names[k] == n);
        }
        assert(new_names.contains(name));
    } else {
        assert(new_names =~= old_names.push(name));
        assert forall|n: Seq<char>| #[trigger] new_names.contains(n) <==> old_names.contains(n) || n
            == name by {
            if old_names.contains(n) {
                let k = old_names.index_of(n);
                assert(new_names[k] == n);
            }
            assert(new_names[before.len() as int] == name);
        }
        assert forall|n: Seq<char>| #[trigger] entries_map(after).contains_key(n) implies entries_map(
            after,
        )[n] == entries_map(before).insert(name, value)[n] by {
            let k = new_names.index_of(n);
            assert(new_names[k] == n);
            if n != name {
                let m = old_names.index_of(n);
                assert(old_names[m] == n);
                assert(new_names[m] == n);
                assert(before[m] == after.drop_last()[m]);
            }
        }
    }
    assert(entries_map(after) =~= entries_map(before).insert(name, value));
}

/// What a list of entries binds a name to, for a name that occurs once.
pub proof fn lemma_entries_map<V>(entries: Seq<(String, V)>)
    requires
        names_of(entries).no_duplicates(),
    ensures
        names_of(entries).len() == entries.len(),
        forall|i: int|
            0 <= i < entries.len() ==> #[trigger] names_of(entries)[i] == entries[i].0@
                && entries_map(entries).contains_key(entries[i].0@) && entries_map(
                entries,
            )[entries[i].0@] == entries[i].1,
        forall|n: Seq<char>|
            entries_map(entries).contains_key(n) <==> #[trigger] names_of(entries).contains(n),
{
    assert forall|i: int| 0 <= i < entries.len() implies #[trigger] names_of(entries)[i]
        == entries[i].0@ && entries_map(entries).contains_key(entries[i].0@) && entries_map(
        entries,
    )[entries[i].0@] == entries[i].1 by {
        let names = names_of(entries);
        assert(names.contains(names[i]));
        assert(names.index_of(names[i]) == i);
    }
}

/// A map from names to values that can be walked; no name occurs twice.
pub struct Dict<V> {
    entries: Vec<(String, V)>,
}

impl<V> View for Dict<V> {
    type V = Map<Seq<char>, V>;

    closed spec fn view(&self) -> Map<Seq<char>, V> {
        entries_map(self.entries@)
    }
}

impl<V> Dict<V> {
    /// The names, in the order in which they came.
    pub closed spec fn names(&self) -> Seq<Seq<char>> {
        names_of(self.entries@)
    }

    /// No name occurs twice.
    #[verifier::type_invariant]
    pub closed spec fn wf(&self) -> bool {
        names_of(self.entries@).no_duplicates()
    }

    /// The names are the domain of the map, and none of them occurs twice.
    pub proof fn law_names(&self)
        requires
            self.wf(),
        ensures
            self.names().no_duplicates(),
            forall|n: Seq<char>| self@.contains_key(n) <==> #[trigger] self.names().contains(n),
    {
    }

    /// A dictionary without entries.
    pub fn new() -> (r: Dict<V>)
        ensures
            r.names() == Seq::<Seq<char>>::empty(),
            r@ == Map::<Seq<char>, V>::empty(),
    {
        let r = Dict { entries: Vec::new() };
        assert(r@ =~= Map::<Seq<char>, V>::empty());
        r
    }

    /// The number of entries.
    pub fn len(&self) -> (r: usize)
        ensures
            r == self.names().len(),
    {
        self.entries.len()
    }

    /// Whether there is no entry.
    pub fn is_empty(&self) -> (r: bool)
        ensures
            r == (self.names().len() == 0),
    {
        self.entries.len() == 0
    }

    /// The entries, in the order in which they came.
    pub fn entries(&self) -> (r: &Vec<(String, V)>)
        ensures
            names_of(r@) == self.names(),
            names_of(r@).no_duplicates(),
            entries_map(r@) == self@,
    {
        proof {
            use_type_invariant(self);
        }
        &self.entries
    }

    /// The dictionary of these entries.
    pub fn from_entries(entries: Vec<(String, V)>) -> (r: Dict<V>)
        requires
            names_of(entries@).no_duplicates(),
        ensures
            r.names() == names_of(entries@),
            r@ == entries_map(entries@),
    {
        Dict { entries }
    }

    /// The entries, moved out.
    pub fn into_entries(self) -> (r: Vec<(String, V)>)
        ensures
            names_of(r@) == self.names(),
            names_of(r@).no_duplicates(),
            entries_map(r@) == self@,
    {
        proof {
            use_type_invariant(&self);
        }
        self.entries
    }

    /// The name of the entry at `index`.
    pub fn name_at(&self, index: usize) -> (r: &String)
        requires
            index < self.names().len(),
        ensures
            r@ == self.names()[index as int],
    {
        &self.entries[index].0
    }

    /// The value of the entry at `index`.
    pub fn value_at(&self, index: usize) -> (r: &V)
        requires
            index < self.names().len(),
        ensures
            self@.contains_key(self.names()[index as int]),
            *r == self@[self.names()[index as int]],
    {
        proof {
            use_type_invariant(self);
            let names = self.names();
            assert(names.contains(names[index as int]));
            assert(names.index_of(names[index as int]) == index);
        }
        &self.entries[index].1
    }

    /// Where the entry of that name stands, if there is one.
    pub fn position(&self, name: &str) -> (r: Option<usize>)
        ensures
            r is Some <==> self@.contains_key(name@),
            r matches Some(i) ==> i < self.names().len() && self.names()[i as int] == name@,
    {
        let mut i: usize = 0;
        while i < self.entries.len()
            invariant
                i <= self.entries.len(),
                forall|j: int| 0 <= j < i ==> #[trigger] self.names()[j] != name@,
            decreases self.entries.len() - i,
        {
            if str_eq(self.entries[i].0.as_str(), name) {
                assert(self.names()[i as int] == name@);
                return Some(i);
            }
            i += 1;
        }
        assert(!self.names().contains(name@));
        None
    }

    /// The value of the entry of that name, if there is one.
    pub fn get(&self, name: &str) -> (r: Option<&V>)
        ensures
            r is Some <==> self@.contains_key(name@),
            r matches Some(v) ==> *v == self@[name@],
    {
        match self.position(name) {
            Some(i) => Some(self.value_at(i)),
            None => None,
        }
    }

    /// Whether there is an entry of that name.
    pub fn contains_key(&self, name: &str) -> (r: bool)
        ensures
            r == self@.contains_key(name@),
    {
        self.position(name).is_some()
    }

    /// Binds `name` to `value`. A name that is there already keeps its place.
    pub fn insert(&mut self, name: String, value: V)
        ensures
            final(self)@ == old(self)@.insert(name@, value),
            final(self).names() == if old(self)@.contains_key(name@) {
                old(self).names()
            } else {
                old(self).names().push(name@)
            },
    {
        proof {
            use_type_invariant(&*self);
        }
        let mut entries: Vec<(String, V)> = Vec::new();
        let found: Option<usize> = self.position(name.as_str());
        std::mem::swap(&mut entries, &mut self.entries);
        let ghost before = entries@;
        match found {
            Some(i) => {
                entries[i] = (name, value);
                assert(names_of(entries@) =~= names_of(before));
                assert(names_of(before)[i as int] == name@);
            },
            None => {
                entries.push((name, value));
                assert(entries@.drop_last() =~= before);
                assert(names_of(entries@) =~= names_of(before).push(name@));
            },
        }
        self.entries = entries;
        proof {
            lemma_insert(before, self.entries@, name@, value);
        }
    }
}

} // verus!
