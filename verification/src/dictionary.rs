//! The lookup table that placeholders are resolved against.

use vstd::hash_map::StringHashMap;
use vstd::prelude::*;

verus! {

/// The keys of `entries`, in order.
pub open spec fn keys(entries: Seq<(Seq<char>, Seq<char>)>) -> Seq<Seq<char>> {
    entries.map_values(|e: (Seq<char>, Seq<char>)| e.0)
}

/// The map that sends each key of `entries` to the text beside it.
pub open spec fn as_map(entries: Seq<(Seq<char>, Seq<char>)>) -> Map<Seq<char>, Seq<char>>
    recommends
        keys(entries).no_duplicates(),
{
    Map::new(
        |k: Seq<char>| keys(entries).contains(k),
        |k: Seq<char>| entries[keys(entries).index_of(k)].1,
    )
}

/// `entries` once `key` stands for `value`: an entry that has the key keeps
/// its place and takes the new text, a new key goes to the end.
pub open spec fn put(entries: Seq<(Seq<char>, Seq<char>)>, key: Seq<char>, value: Seq<char>) -> Seq<
    (Seq<char>, Seq<char>),
> {
    if keys(entries).contains(key) {
        entries.update(keys(entries).index_of(key), (key, value))
    } else {
        entries.push((key, value))
    }
}

/// `entries` after each pair of `pairs` has been put into it, first to last.
pub open spec fn put_all(
    entries: Seq<(Seq<char>, Seq<char>)>,
    pairs: Seq<(Seq<char>, Seq<char>)>,
) -> Seq<(Seq<char>, Seq<char>)>
    decreases pairs.len(),
{
    if pairs.len() == 0 {
        entries
    } else {
        put(put_all(entries, pairs.drop_last()), pairs.last().0, pairs.last().1)
    }
}

/// The characters of each pair of owned strings.
pub open spec fn pair_views(entries: Seq<(String, String)>) -> Seq<(Seq<char>, Seq<char>)> {
    entries.map_values(|e: (String, String)| (e.0@, e.1@))
}

/// The characters of each pair of string slices.
pub open spec fn slice_pair_views(pairs: Seq<(&str, &str)>) -> Seq<(Seq<char>, Seq<char>)> {
    pairs.map_values(|p: (&str, &str)| (p.0@, p.1@))
}

/// Where a key occurs among distinct keys, there the map finds its text.
pub proof fn lemma_as_map_at(entries: Seq<(Seq<char>, Seq<char>)>, i: int)
    requires
        keys(entries).no_duplicates(),
        0 <= i < entries.len(),
    ensures
        as_map(entries).contains_key(entries[i].0),
        as_map(entries)[entries[i].0] == entries[i].1,
{
    let ks = keys(entries);
    assert(ks[i] == entries[i].0);
    let j = ks.index_of(entries[i].0);
    assert(0 <= j < ks.len() && ks[j] == entries[i].0);
}

/// The map of entries with distinct keys has as many keys as there are
/// entries.
pub proof fn lemma_as_map_size(entries: Seq<(Seq<char>, Seq<char>)>)
    requires
        keys(entries).no_duplicates(),
    ensures
        as_map(entries).dom().finite(),
        as_map(entries).dom().len() == entries.len(),
{
    let ks = keys(entries);
    ks.unique_seq_to_set();
    assert(as_map(entries).dom() =~= ks.to_set());
}

/// Putting a pair keeps the keys distinct and acts on the map as an insertion.
pub proof fn lemma_put(entries: Seq<(Seq<char>, Seq<char>)>, key: Seq<char>, value: Seq<char>)
    requires
        keys(entries).no_duplicates(),
    ensures
        keys(put(entries, key, value)).no_duplicates(),
        as_map(put(entries, key, value)) == as_map(entries).insert(key, value),
{
    let ks = keys(entries);
    let after = put(entries, key, value);
    let ks_after = keys(after);
    if ks.contains(key) {
        let at = ks.index_of(key);
        assert(ks_after =~= ks);
        assert forall|k: Seq<char>| ks.contains(k) implies as_map(after)[k] == as_map(
            entries,
        ).insert(key, value)[k] by {
            let j = ks.index_of(k);
            assert(ks[j] == k);
            if k != key {
                assert(j != at);
                assert(after[j] == entries[j]);
            }
        }
        assert(as_map(after) =~= as_map(entries).insert(key, value));
    } else {
        let n = entries.len() as int;
        assert(ks_after =~= ks.push(key));
        assert forall|i: int, j: int| 0 <= i < ks_after.len() && 0 <= j < ks_after.len() && i
            != j implies ks_after[i] != ks_after[j] by {
            if i < n {
                assert(ks.contains(ks[i]));
            }
            if j < n {
                assert(ks.contains(ks[j]));
            }
        }
        assert forall|k: Seq<char>| ks_after.contains(k) <==> (ks.contains(k) || k == key) by {
            if ks.contains(k) {
                let j = ks.index_of(k);
                assert(ks_after[j] == k);
            }
            if k == key {
                assert(ks_after[n] == k);
            }
        }
        assert forall|k: Seq<char>| ks_after.contains(k) implies as_map(after)[k] == as_map(
            entries,
        ).insert(key, value)[k] by {
            let j = ks_after.index_of(k);
            assert(ks_after[j] == k);
            if k == key {
                assert(ks_after[n] == key);
                assert(j == n);
            } else {
                assert(j < n);
                let j0 = ks.index_of(k);
                assert(ks[j] == k);
                assert(ks[j0] == k);
                assert(j0 == j);
                assert(after[j] == entries[j]);
            }
        }
        assert(as_map(after) =~= as_map(entries).insert(key, value));
    }
}

/// `index` tells of each key of `entries`, and of nothing else, where the
/// key stands.
spec fn locates(index: Map<Seq<char>, usize>, entries: Seq<(Seq<char>, Seq<char>)>) -> bool {
    &&& forall|i: int|
        0 <= i < entries.len() ==> index.contains_key(#[trigger] entries[i].0)
            && index[entries[i].0] == i
    &&& forall|k: Seq<char>| #[trigger]
        index.contains_key(k) ==> index[k] < entries.len() && entries[index[k] as int].0 == k
}

/// A table from keys to replacement texts.
///
/// No key occurs twice. The entries keep the order in which their keys were
/// first inserted; that is the order in which a failed lookup lists them. A
/// hash index beside the entries finds a key without walking through them.
pub struct Dictionary {
    entries: Vec<(String, String)>,
    index: StringHashMap<usize>,
}

impl View for Dictionary {
    type V = Map<Seq<char>, Seq<char>>;

    open spec fn view(&self) -> Map<Seq<char>, Seq<char>> {
        as_map(self.entries_view())
    }
}

impl Dictionary {
    /// The entries as pairs of character sequences, in insertion order.
    pub closed spec fn entries_view(&self) -> Seq<(Seq<char>, Seq<char>)> {
        pair_views(self.entries@)
    }

    /// The index locates the entries.
    pub closed spec fn indexed(&self) -> bool {
        locates(self.index@, self.entries_view())
    }

    /// No key occurs twice, and the index locates the entries.
    #[verifier::type_invariant]
    pub open spec fn well_formed(&self) -> bool {
        keys(self.entries_view()).no_duplicates() && self.indexed()
    }

    /// An empty dictionary.
    pub fn new() -> (dictionary: Dictionary)
        ensures
            dictionary.entries_view() == Seq::<(Seq<char>, Seq<char>)>::empty(),
            dictionary@ == Map::<Seq<char>, Seq<char>>::empty(),
    {
        let dictionary = Dictionary { entries: Vec::new(), index: StringHashMap::new() };
        assert(dictionary.entries_view() =~= Seq::empty());
        assert(dictionary@ =~= Map::empty());
        dictionary
    }

    /// The number of entries, which is the number of keys.
    pub fn len(&self) -> (n: usize)
        ensures
            n == self.entries_view().len(),
            n == self@.dom().len(),
    {
        proof {
            use_type_invariant(self);
            lemma_as_map_size(self.entries_view());
        }
        self.entries.len()
    }

    /// The index of the entry that has `key`, if there is one.
    fn position(&self, key: &str) -> (found: Option<usize>)
        ensures
            match found {
                Some(i) => i < self.entries_view().len() && self.entries_view()[i as int].0
                    == key@,
                None => !keys(self.entries_view()).contains(key@),
            },
    {
        proof {
            use_type_invariant(self);
        }
        match self.index.get(key) {
            Some(at) => Some(*at),
            None => {
                assert forall|i: int| 0 <= i < self.entries_view().len() implies keys(
                    self.entries_view(),
                )[i] != key@ by {
                    assert(self.index@.contains_key(self.entries_view()[i].0));
                }
                None
            },
        }
    }

    /// The text that `key` stands for, if the dictionary holds the key.
    pub fn get(&self, key: &str) -> (value: Option<&String>)
        ensures
            match value {
                Some(text) => self@.contains_key(key@) && text@ == self@[key@],
                None => !self@.contains_key(key@),
            },
    {
        proof {
            use_type_invariant(self);
        }
        match self.position(key) {
            Some(i) => {
                proof {
                    lemma_as_map_at(self.entries_view(), i as int);
                }
                Some(&self.entries[i].1)
            },
            None => None,
        }
    }

    /// Makes `key` stand for `value`, in place of what it stood for before.
    pub fn insert(&mut self, key: String, value: String)
        ensures
            final(self).entries_view() == put(old(self).entries_view(), key@, value@),
            final(self)@ == old(self)@.insert(key@, value@),
    {
        proof {
            use_type_invariant(&*self);
            lemma_put(self.entries_view(), key@, value@);
        }
        let found = self.position(key.as_str());
        let ghost before = self.entries_view();
        let ghost located = self.index@;
        // The entries and the index leave `self` together and come back
        // together: in between, `self` is the empty dictionary.
        let mut taken = Dictionary::new();
        std::mem::swap(self, &mut taken);
        let Dictionary { mut entries, mut index } = taken;
        assert(locates(located, before) && index@ == located);
        match found {
            Some(i) => {
                proof {
                    let ks = keys(before);
                    assert(ks[i as int] == key@);
                    assert(ks.index_of(key@) == i);
                }
                entries.set(i, (key, value));
            },
            None => {
                index.insert(key.clone(), entries.len());
                entries.push((key, value));
            },
        }
        assert(pair_views(entries@) =~= put(before, key@, value@));
        assert(locates(index@, pair_views(entries@))) by {
            let after = pair_views(entries@);
            assert forall|i: int| 0 <= i < after.len() implies index@.contains_key(
                #[trigger] after[i].0,
            ) && index@[after[i].0] == i by {
                if i < before.len() {
                    assert(keys(before)[i] == before[i].0);
                    assert(located.contains_key(before[i].0) && located[before[i].0] == i);
                    assert(before[i].0 == after[i].0);
                }
            }
        }
        *self = Dictionary { entries, index };
    }

    /// The dictionary that holds each of `pairs`. Where a key comes twice, it
    /// keeps its first place and stands for the later text.
    pub fn from_pairs(pairs: &[(&str, &str)]) -> (dictionary: Dictionary)
        ensures
            dictionary.entries_view() == put_all(Seq::empty(), slice_pair_views(pairs@)),
    {
        let mut dictionary = Dictionary::new();
        let mut i: usize = 0;
        while i < pairs.len()
            invariant
                i <= pairs.len(),
                dictionary.entries_view() == put_all(
                    Seq::empty(),
                    slice_pair_views(pairs@).take(i as int),
                ),
            decreases pairs.len() - i,
        {
            let pair = pairs[i];
            proof {
                let views = slice_pair_views(pairs@);
                assert(views.take(i + 1).drop_last() =~= views.take(i as int));
                assert(views.take(i + 1).last() == (pair.0@, pair.1@));
            }
            dictionary.insert(pair.0.to_owned(), pair.1.to_owned());
            i += 1;
        }
        assert(slice_pair_views(pairs@).take(i as int) =~= slice_pair_views(pairs@));
        dictionary
    }

    /// A copy of the entries, in insertion order.
    pub fn entries(&self) -> (copy: Vec<(String, String)>)
        ensures
            pair_views(copy@) == self.entries_view(),
            keys(pair_views(copy@)).no_duplicates(),
    {
        proof {
            use_type_invariant(self);
        }
        let mut copy: Vec<(String, String)> = Vec::new();
        let mut i: usize = 0;
        while i < self.entries.len()
            invariant
                i <= self.entries.len(),
                copy@.len() == i,
                pair_views(copy@) == self.entries_view().take(i as int),
            decreases self.entries.len() - i,
        {
            let ghost before = copy@;
            copy.push((self.entries[i].0.clone(), self.entries[i].1.clone()));
            assert forall|j: int| 0 <= j < i + 1 implies pair_views(copy@)[j]
                == self.entries_view()[j] by {
                if j < i {
                    assert(pair_views(before)[j] == self.entries_view().take(i as int)[j]);
                }
            }
            assert(pair_views(copy@) =~= self.entries_view().take(i + 1));
            i += 1;
        }
        assert(self.entries_view().take(i as int) =~= self.entries_view());
        copy
    }
}

} // verus!
