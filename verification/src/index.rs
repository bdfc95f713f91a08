//! The in-memory index: a map that associates each live key with the
//! location on disk of its most recent `Put` record. The index exists purely
//! for fast lookup; it is always reconstructable from the datafiles.

use vstd::prelude::*;

use crate::logpointer::DataFile;
use crate::logpointer::LogPointer;

verus! {

/// Map from key to the location of the record that asserts its value.
pub struct Index {
    entries: Vec<(String, LogPointer)>,
}

/// The map denoted by an association list; later entries win.
pub open spec fn map_of(s: Seq<(String, LogPointer)>) -> Map<Seq<char>, LogPointer>
    decreases s.len(),
{
    if s.len() == 0 {
        Map::empty()
    } else {
        map_of(s.drop_last()).insert(s.last().0@, s.last().1)
    }
}

impl View for Index {
    type V = Map<Seq<char>, LogPointer>;

    closed spec fn view(&self) -> Map<Seq<char>, LogPointer> {
        map_of(self.entries@)
    }
}

/// Every key in the map denoted by `s` is the key of some entry of `s`.
pub proof fn lemma_map_of_keys(s: Seq<(String, LogPointer)>)
    ensures
        forall|k: Seq<char>|
            map_of(s).contains_key(k) <==> exists|i: int| 0 <= i < s.len() && s[i].0@ == k,
    decreases s.len(),
{
    if s.len() > 0 {
        let t = s.drop_last();
        lemma_map_of_keys(t);
        assert forall|k: Seq<char>| map_of(s).contains_key(k) implies exists|i: int|
            0 <= i < s.len() && s[i].0@ == k by {
            if k == s.last().0@ {
                assert(s[s.len() - 1].0@ == k);
            } else {
                assert(map_of(t).contains_key(k));
                assert(exists|i: int| 0 <= i < t.len() && t[i].0@ == k);
                let i = choose|i: int| 0 <= i < t.len() && t[i].0@ == k;
                assert(t[i] == s[i]);
                assert(s[i].0@ == k);
            }
        }
        assert forall|k: Seq<char>|
            (exists|i: int| 0 <= i < s.len() && s[i].0@ == k) implies map_of(s).contains_key(k) by {
            let i = choose|i: int| 0 <= i < s.len() && s[i].0@ == k;
            if i < s.len() - 1 {
                assert(t[i] == s[i]);
                assert(t[i].0@ == k);
                assert(exists|j: int| 0 <= j < t.len() && t[j].0@ == k);
                assert(map_of(t).contains_key(k));
            } else {
                assert(k == s.last().0@);
            }
        }
    }
}

/// With distinct keys, the denoted map agrees with every entry of the list.
pub proof fn lemma_map_of_distinct(s: Seq<(String, LogPointer)>)
    requires
        forall|i: int, j: int| 0 <= i < j < s.len() ==> s[i].0@ != s[j].0@,
    ensures
        forall|i: int|
            0 <= i < s.len() ==> map_of(s).contains_key(#[trigger] s[i].0@) && map_of(s)[s[i].0@]
                == s[i].1,
    decreases s.len(),
{
    if s.len() > 0 {
        assert(forall|i: int| 0 <= i < s.drop_last().len() ==> s.drop_last()[i] == s[i]);
        lemma_map_of_distinct(s.drop_last());
        assert forall|i: int| 0 <= i < s.len() implies map_of(s).contains_key(#[trigger] s[i].0@)
            && map_of(s)[s[i].0@] == s[i].1 by {
            if i < s.len() - 1 {
                assert(s[i].0@ != s.last().0@);
                assert(s.drop_last()[i] == s[i]);
            }
        }
    }
}

impl Index {
    /// Keys are pairwise distinct.
    pub closed spec fn wf(&self) -> bool {
        forall|i: int, j: int|
            0 <= i < j < self.entries@.len() ==> self.entries@[i].0@ != self.entries@[j].0@
    }

    /// The key/location pairs held by the index, in insertion order.
    pub closed spec fn pairs(&self) -> Seq<(Seq<char>, LogPointer)> {
        self.entries@.map_values(|p: (String, LogPointer)| (p.0@, p.1))
    }

    /// The pairs agree with the map view.
    pub proof fn lemma_pairs(&self)
        requires
            self.wf(),
        ensures
            forall|i: int|
                0 <= i < self.pairs().len() ==> self@.contains_key(
                    #[trigger] self.pairs()[i].0,
                ) && self@[self.pairs()[i].0] == self.pairs()[i].1,
            forall|k: Seq<char>|
                self@.contains_key(k) ==> exists|i: int|
                    0 <= i < self.pairs().len() && (#[trigger] self.pairs()[i]).0 == k,
            forall|i: int, j: int|
                0 <= i < j < self.pairs().len() ==> self.pairs()[i].0 != self.pairs()[j].0,
    {
        lemma_map_of_distinct(self.entries@);
        lemma_map_of_keys(self.entries@);
        assert forall|k: Seq<char>| self@.contains_key(k) implies exists|i: int|
            0 <= i < self.pairs().len() && (#[trigger] self.pairs()[i]).0 == k by {
            let i = choose|i: int| 0 <= i < self.entries@.len() && self.entries@[i].0@ == k;
            assert(self.pairs()[i].0 == k);
        }
    }

    /// An empty index.
    pub fn new() -> (r: Index)
        ensures
            r@ == Map::<Seq<char>, LogPointer>::empty(),
            r.wf(),
            r.pairs() == Seq::<(Seq<char>, LogPointer)>::empty(),
    {
        let r = Index { entries: Vec::new() };
        proof {
            assert(r.pairs() =~= Seq::<(Seq<char>, LogPointer)>::empty());
        }
        r
    }

    /// Number of live keys.
    pub fn len(&self) -> (n: usize)
        ensures
            n == self.pairs().len(),
    {
        self.entries.len()
    }

    /// The `i`th key/location pair.
    pub fn pair_at(&self, i: usize) -> (r: (String, LogPointer))
        requires
            i < self.pairs().len(),
        ensures
            r.0@ == self.pairs()[i as int].0,
            r.1 == self.pairs()[i as int].1,
    {
        let p = &self.entries[i];
        (p.0.clone(), p.1)
    }

    /// Look up the location recorded for `key`.
    pub fn get(&self, key: &String) -> (r: Option<LogPointer>)
        requires
            self.wf(),
        ensures
            r == if self@.contains_key(key@) {
                Some(self@[key@])
            } else {
                None::<LogPointer>
            },
    {
        proof {
            lemma_map_of_distinct(self.entries@);
            lemma_map_of_keys(self.entries@);
        }
        let n = self.entries.len();
        let mut i: usize = 0;
        while i < n
            invariant
                self.wf(),
                n == self.entries@.len(),
                0 <= i <= n,
                forall|j: int| 0 <= j < i ==> self.entries@[j].0@ != key@,
                forall|jj: int|
                    0 <= jj < self.entries@.len() ==> (map_of(self.entries@).contains_key(
                        #[trigger] self.entries@[jj].0@,
                    ) && map_of(self.entries@)[self.entries@[jj].0@] == self.entries@[jj].1),
                forall|k: Seq<char>|
                    map_of(self.entries@).contains_key(k) ==> exists|jj: int|
                        0 <= jj < self.entries@.len() && self.entries@[jj].0@ == k,
            decreases n - i,
        {
            if self.entries[i].0.eq(key) {
                return Some(self.entries[i].1);
            }
            i += 1;
        }
        proof {
            if self@.contains_key(key@) {
                let jj = choose|jj: int|
                    0 <= jj < self.entries@.len() && self.entries@[jj].0@ == key@;
                assert(false);
            }
        }
        None
    }

    /// Record `ptr` for `key`; returns the previously recorded location.
    pub fn insert(&mut self, key: String, ptr: LogPointer) -> (prev: Option<LogPointer>)
        requires
            old(self).wf(),
        ensures
            final (self)@ == old(self)@.insert(key@, ptr),
            final (self).wf(),
            prev == if old(self)@.contains_key(key@) {
                Some(old(self)@[key@])
            } else {
                None::<LogPointer>
            },
    {
        proof {
            lemma_map_of_distinct(self.entries@);
            lemma_map_of_keys(self.entries@);
        }
        let n = self.entries.len();
        let mut i: usize = 0;
        while i < n
            invariant
                old(self) == self,
                self.wf(),
                n == self.entries@.len(),
                0 <= i <= n,
                forall|j: int| 0 <= j < i ==> self.entries@[j].0@ != key@,
                forall|jj: int|
                    0 <= jj < self.entries@.len() ==> (map_of(self.entries@).contains_key(
                        #[trigger] self.entries@[jj].0@,
                    ) && map_of(self.entries@)[self.entries@[jj].0@] == self.entries@[jj].1),
                forall|k: Seq<char>|
                    map_of(self.entries@).contains_key(k) ==> exists|jj: int|
                        0 <= jj < self.entries@.len() && self.entries@[jj].0@ == k,
            decreases n - i,
        {
            if self.entries[i].0.eq(&key) {
                let prev = self.entries[i].1;
                self.entries[i] = (key, ptr);
                proof {
                    lemma_map_of_update(old(self).entries@, i as int, self.entries@[i as int]);
                    assert(self@ =~= old(self)@.insert(self.entries@[i as int].0@, ptr));
                }
                return Some(prev);
            }
            i += 1;
        }
        self.entries.push((key, ptr));
        proof {
            assert(self.entries@.drop_last() =~= old(self).entries@);
            if old(self)@.contains_key(key@) {
                let jj = choose|jj: int|
                    0 <= jj < old(self).entries@.len() && old(self).entries@[jj].0@ == key@;
                assert(false);
            }
        }
        None
    }

    /// Forget `key`; returns the previously recorded location.
    pub fn remove(&mut self, key: &String) -> (prev: Option<LogPointer>)
        requires
            old(self).wf(),
        ensures
            final (self)@ == old(self)@.remove(key@),
            final (self).wf(),
            prev == if old(self)@.contains_key(key@) {
                Some(old(self)@[key@])
            } else {
                None::<LogPointer>
            },
    {
        proof {
            lemma_map_of_distinct(self.entries@);
            lemma_map_of_keys(self.entries@);
        }
        let n = self.entries.len();
        let mut i: usize = 0;
        while i < n
            invariant
                old(self) == self,
                self.wf(),
                n == self.entries@.len(),
                0 <= i <= n,
                forall|j: int| 0 <= j < i ==> self.entries@[j].0@ != key@,
                forall|jj: int|
                    0 <= jj < self.entries@.len() ==> (map_of(self.entries@).contains_key(
                        #[trigger] self.entries@[jj].0@,
                    ) && map_of(self.entries@)[self.entries@[jj].0@] == self.entries@[jj].1),
                forall|k: Seq<char>|
                    map_of(self.entries@).contains_key(k) ==> exists|jj: int|
                        0 <= jj < self.entries@.len() && self.entries@[jj].0@ == k,
            decreases n - i,
        {
            if self.entries[i].0.eq(key) {
                let prev = self.entries[i].1;
                self.entries.remove(i);
                proof {
                    lemma_map_of_remove(old(self).entries@, i as int);
                    assert(self@ =~= old(self)@.remove(key@));
                }
                return Some(prev);
            }
            i += 1;
        }
        proof {
            if old(self)@.contains_key(key@) {
                let jj = choose|jj: int|
                    0 <= jj < old(self).entries@.len() && old(self).entries@[jj].0@ == key@;
                assert(false);
            }
            assert(self@ =~= old(self)@.remove(key@));
        }
        None
    }

    /// Forget everything.
    pub fn clear(&mut self)
        ensures
            final (self)@ == Map::<Seq<char>, LogPointer>::empty(),
            final (self).wf(),
            final (self).pairs() == Seq::<(Seq<char>, LogPointer)>::empty(),
    {
        self.entries.clear();
        proof {
            assert(self.pairs() =~= Seq::<(Seq<char>, LogPointer)>::empty());
        }
    }

    /// Replace every location that points at the active file with the same
    /// offset in passive file `n`; used when the active file is rotated.
    pub fn retarget_active(&mut self, n: u64)
        requires
            old(self).wf(),
        ensures
            final (self).wf(),
            final (self)@ == Map::<Seq<char>, LogPointer>::new(
                |k: Seq<char>| old(self)@.contains_key(k),
                |k: Seq<char>|
                    if old(self)@[k].file == DataFile::Active {
                        LogPointer { offset: old(self)@[k].offset, file: DataFile::Passive(n) }
                    } else {
                        old(self)@[k]
                    },
            ),
    {
        proof {
            lemma_map_of_distinct(self.entries@);
            lemma_map_of_keys(self.entries@);
        }
        let ghost target = Map::<Seq<char>, LogPointer>::new(
            |k: Seq<char>| old(self)@.contains_key(k),
            |k: Seq<char>|
                if old(self)@[k].file == DataFile::Active {
                    LogPointer { offset: old(self)@[k].offset, file: DataFile::Passive(n) }
                } else {
                    old(self)@[k]
                },
        );
        let len = self.entries.len();
        let mut i: usize = 0;
        while i < len
            invariant
                len == self.entries@.len(),
                0 <= i <= len,
                self.entries@.len() == old(self).entries@.len(),
                forall|j: int|
                    0 <= j < len ==> (#[trigger] self.entries@[j]).0@ == old(
                        self,
                    ).entries@[j].0@,
                forall|j: int|
                    0 <= j < i ==> (#[trigger] self.entries@[j]).1 == (if old(
                        self,
                    ).entries@[j].1.file == DataFile::Active {
                        LogPointer {
                            offset: old(self).entries@[j].1.offset,
                            file: DataFile::Passive(n),
                        }
                    } else {
                        old(self).entries@[j].1
                    }),
                forall|j: int| i <= j < len ==> (#[trigger] self.entries@[j]).1 == old(
                    self,
                ).entries@[j].1,
            decreases len - i,
        {
            let ptr = self.entries[i].1;
            match ptr.file {
                DataFile::Active => {
                    let key = self.entries[i].0.clone();
                    self.entries[i] = (key, LogPointer { offset: ptr.offset, file: DataFile::Passive(n) });
                },
                DataFile::Passive(_) => {},
            }
            i += 1;
        }
        proof {
            assert(self.wf());
            lemma_map_of_distinct(self.entries@);
            lemma_map_of_keys(self.entries@);
            assert forall|k: Seq<char>| #[trigger]
                target.contains_key(k) implies self@.contains_key(k) && self@[k] == target[k] by {
                let jj = choose|jj: int|
                    0 <= jj < old(self).entries@.len() && old(self).entries@[jj].0@ == k;
                assert(self.entries@[jj].0@ == k);
                lemma_map_of_distinct(old(self).entries@);
            }
            assert forall|k: Seq<char>| self@.contains_key(k) implies target.contains_key(k) by {
                let jj = choose|jj: int|
                    0 <= jj < self.entries@.len() && self.entries@[jj].0@ == k;
                assert(old(self).entries@[jj].0@ == k);
                lemma_map_of_distinct(old(self).entries@);
            }
            assert(self@ =~= target);
        }
    }
}

/// Updating entry `i` in place, with an unchanged key, denotes an insert.
proof fn lemma_map_of_update(s: Seq<(String, LogPointer)>, i: int, p: (String, LogPointer))
    requires
        0 <= i < s.len(),
        forall|a: int, b: int| 0 <= a < b < s.len() ==> s[a].0@ != s[b].0@,
        p.0@ == s[i].0@,
    ensures
        map_of(s.update(i, p)) == map_of(s).insert(p.0@, p.1),
    decreases s.len(),
{
    lemma_map_of_distinct(s);
    lemma_map_of_keys(s);
    let t = s.update(i, p);
    lemma_map_of_distinct_helper(s, t, i, p);
}

/// Pointwise argument shared by the update lemma.
proof fn lemma_map_of_distinct_helper(
    s: Seq<(String, LogPointer)>,
    t: Seq<(String, LogPointer)>,
    i: int,
    p: (String, LogPointer),
)
    requires
        0 <= i < s.len(),
        forall|a: int, b: int| 0 <= a < b < s.len() ==> s[a].0@ != s[b].0@,
        p.0@ == s[i].0@,
        t == s.update(i, p),
    ensures
        map_of(t) == map_of(s).insert(p.0@, p.1),
{
    assert(forall|a: int, b: int| 0 <= a < b < t.len() ==> t[a].0@ != t[b].0@) by {
        assert(forall|a: int| 0 <= a < t.len() ==> t[a].0@ == s[a].0@);
    }
    lemma_map_of_distinct(t);
    lemma_map_of_keys(t);
    lemma_map_of_distinct(s);
    lemma_map_of_keys(s);
    assert forall|k: Seq<char>| #[trigger]
        map_of(t).contains_key(k) implies map_of(s).insert(p.0@, p.1).contains_key(k) && map_of(t)[k]
        == map_of(s).insert(p.0@, p.1)[k] by {
        let jj = choose|jj: int| 0 <= jj < t.len() && t[jj].0@ == k;
        if jj == i {
            assert(map_of(t)[k] == p.1);
        } else {
            assert(s[jj].0@ == k);
            assert(k != p.0@);
            assert(map_of(t)[k] == t[jj].1);
            assert(t[jj].1 == s[jj].1);
        }
    }
    assert forall|k: Seq<char>| #[trigger]
        map_of(s).insert(p.0@, p.1).contains_key(k) implies map_of(t).contains_key(k) by {
        if k == p.0@ {
            assert(t[i].0@ == k);
        } else {
            let jj = choose|jj: int| 0 <= jj < s.len() && s[jj].0@ == k;
            assert(t[jj].0@ == k);
        }
    }
    assert(map_of(t) =~= map_of(s).insert(p.0@, p.1));
}

/// Removing entry `i` denotes a map removal when keys are distinct.
proof fn lemma_map_of_remove(s: Seq<(String, LogPointer)>, i: int)
    requires
        0 <= i < s.len(),
        forall|a: int, b: int| 0 <= a < b < s.len() ==> s[a].0@ != s[b].0@,
    ensures
        map_of(s.remove(i)) == map_of(s).remove(s[i].0@),
{
    let t = s.remove(i);
    assert(forall|a: int, b: int| 0 <= a < b < t.len() ==> t[a].0@ != t[b].0@) by {
        assert(forall|a: int|
            0 <= a < t.len() ==> t[a] == (if a < i {
                s[a]
            } else {
                s[a + 1]
            }));
    }
    lemma_map_of_distinct(s);
    lemma_map_of_keys(s);
    lemma_map_of_distinct(t);
    lemma_map_of_keys(t);
    assert forall|k: Seq<char>| #[trigger]
        map_of(t).contains_key(k) implies map_of(s).remove(s[i].0@).contains_key(k) && map_of(t)[k]
        == map_of(s).remove(s[i].0@)[k] by {
        let jj = choose|jj: int| 0 <= jj < t.len() && t[jj].0@ == k;
        if jj < i {
            assert(s[jj].0@ == k);
            assert(k != s[i].0@);
        } else {
            assert(s[jj + 1].0@ == k);
            assert(k != s[i].0@);
        }
    }
    assert forall|k: Seq<char>| #[trigger]
        map_of(s).remove(s[i].0@).contains_key(k) implies map_of(t).contains_key(k) by {
        let jj = choose|jj: int| 0 <= jj < s.len() && s[jj].0@ == k;
        assert(jj != i);
        if jj < i {
            assert(t[jj].0@ == k);
        } else {
            assert(t[jj - 1].0@ == k);
        }
    }
    assert(map_of(t) =~= map_of(s).remove(s[i].0@));
}

} // verus!
