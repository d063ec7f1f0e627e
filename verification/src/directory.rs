//! The in-memory key directory.
//!
//! An ordered mapping from key to the location of the key's most recent
//! record: which segment holds it, at what offset and length, and with what
//! timestamp.  The entries are kept sorted by key so that range scans walk
//! them in order; the directory's meaning is the map from key to entry.

use vstd::prelude::*;

verus! {

/// Where the latest record of one key lives.
#[derive(Clone, Copy, Debug, PartialEq, Eq, Structural)]
pub struct DirEntry {
    /// The creation tag of the segment file that holds the record.
    pub file_tag: u64,
    /// The timestamp the record was written with.
    pub timestamp: u64,
    /// The key itself.
    pub name: usize,
    /// The byte offset of the record in its segment.
    pub offset: u64,
    /// The byte length of the record's value.
    pub length: u64,
}

/// Whether directory entries are strictly sorted by key.
pub open spec fn dir_sorted(s: Seq<DirEntry>) -> bool {
    forall|i: int, j: int| 0 <= i < j < s.len() ==> (#[trigger] s[i]).name < (#[trigger] s[j]).name
}

/// The map denoted by a list of directory entries (later entries win, but
/// under `dir_sorted` the keys are distinct).
pub open spec fn dir_as_map(s: Seq<DirEntry>) -> Map<usize, DirEntry>
    decreases s.len(),
{
    if s.len() == 0 {
        Map::empty()
    } else {
        dir_as_map(s.drop_last()).insert(s.last().name, s.last())
    }
}

/// What `dir_as_map` contains: exactly the entries of the list, each under
/// its own key.
pub proof fn lemma_dir_as_map(s: Seq<DirEntry>)
    requires
        dir_sorted(s),
    ensures
        forall|k: usize|
            #![trigger dir_as_map(s).contains_key(k)]
            dir_as_map(s).contains_key(k) <==> exists|i: int|
                0 <= i < s.len() && (#[trigger] s[i]).name == k,
        forall|i: int|
            0 <= i < s.len() ==> dir_as_map(s).contains_key((#[trigger] s[i]).name) && dir_as_map(
                s,
            )[s[i].name] == s[i],
    decreases s.len(),
{
    if s.len() > 0 {
        let butlast = s.drop_last();
        let last = s.last();
        assert(dir_sorted(butlast)) by {
            assert(forall|i: int| 0 <= i < butlast.len() ==> butlast[i] == s[i]);
        }
        lemma_dir_as_map(butlast);
        assert(dir_as_map(s) == dir_as_map(butlast).insert(last.name, last));
        assert forall|i: int| 0 <= i < s.len() implies dir_as_map(s).contains_key(
            (#[trigger] s[i]).name,
        ) && dir_as_map(s)[s[i].name] == s[i] by {
            if i < s.len() - 1 {
                assert(butlast[i] == s[i]);
                assert(s[i].name < last.name);
                assert(dir_as_map(butlast).contains_key(s[i].name));
                assert(dir_as_map(butlast)[s[i].name] == s[i]);
            }
        }
        assert forall|k: usize| #[trigger]
            dir_as_map(s).contains_key(k) implies exists|i: int|
            0 <= i < s.len() && (#[trigger] s[i]).name == k by {
            if k != last.name {
                assert(dir_as_map(butlast).contains_key(k));
                let i = choose|i: int| 0 <= i < butlast.len() && (#[trigger] butlast[i]).name == k;
                assert(s[i].name == k);
            } else {
                assert(s[s.len() - 1].name == k);
            }
        }
        assert forall|k: usize|
            (exists|i: int| 0 <= i < s.len() && (#[trigger] s[i]).name == k) implies #[trigger]
            dir_as_map(s).contains_key(k) by {
            let i = choose|i: int| 0 <= i < s.len() && (#[trigger] s[i]).name == k;
            assert(dir_as_map(s).contains_key(s[i].name));
        }
    }
}

/// The in-memory key directory: entries sorted by key.
pub struct KeyDir {
    pub entries: Vec<DirEntry>,
}

impl View for KeyDir {
    type V = Map<usize, DirEntry>;

    open spec fn view(&self) -> Map<usize, DirEntry> {
        dir_as_map(self.entries@)
    }
}

impl KeyDir {
    /// The directory's representation invariant: entries strictly sorted by
    /// key.
    pub open spec fn wf(&self) -> bool {
        dir_sorted(self.entries@)
    }

    /// An empty directory.
    pub fn new() -> (d: KeyDir)
        ensures
            d.wf(),
            d@ == Map::<usize, DirEntry>::empty(),
    {
        KeyDir { entries: Vec::new() }
    }

    /// How many keys the directory holds.
    pub fn len(&self) -> (n: usize)
        requires
            self.wf(),
        ensures
            n == self.entries@.len(),
            n == self@.dom().len(),
    {
        proof {
            lemma_dir_len(self.entries@);
        }
        self.entries.len()
    }

    /// The entry of `key`, if the directory holds it.
    pub fn get(&self, key: usize) -> (r: Option<DirEntry>)
        requires
            self.wf(),
        ensures
            match r {
                Some(e) => self@.contains_key(key) && e == self@[key],
                None => !self@.contains_key(key),
            },
    {
        let n = self.entries.len();
        let mut i: usize = 0;
        while i < n
            invariant
                i <= n,
                self.wf(),
                n == self.entries@.len(),
                forall|j: int| 0 <= j < i ==> (#[trigger] self.entries@[j]).name != key,
            decreases n - i,
        {
            if self.entries[i].name == key {
                proof {
                    lemma_dir_as_map(self.entries@);
                }
                return Some(self.entries[i]);
            }
            i = i + 1;
        }
        proof {
            lemma_dir_as_map(self.entries@);
        }
        None
    }

    /// Installs `e` under its key, overwriting any earlier entry for that
    /// key.
    #[verifier::rlimit(100)]
    pub fn insert(&mut self, e: DirEntry)
        requires
            old(self).wf(),
        ensures
            final(self).wf(),
            final(self)@ == old(self)@.insert(e.name, e),
    {
        proof {
            lemma_dir_as_map(self.entries@);
        }
        let ghost olds = self.entries@;
        let n = self.entries.len();
        let mut pos: usize = n;
        while pos > 0 && self.entries[pos - 1].name >= e.name
            invariant
                pos <= n,
                n == self.entries@.len(),
                self.entries@ == olds,
                forall|j: int| pos <= j < n ==> (#[trigger] olds[j]).name >= e.name,
            decreases pos,
        {
            pos = pos - 1;
        }
        proof {
            assert forall|j: int| 0 <= j < pos implies (#[trigger] olds[j]).name < e.name by {
                if j < pos - 1 {
                    assert(olds[j].name < olds[pos - 1].name);
                }
            }
        }
        if pos < n && self.entries[pos].name == e.name {
            // overwrite in place
            self.entries.set(pos, e);
            proof {
                let news = self.entries@;
                assert(news =~= olds.update(pos as int, e));
                assert(dir_sorted(news)) by {
                    assert(forall|j: int|
                        0 <= j < news.len() && j != pos ==> news[j] == olds[j]);
                }
                lemma_dir_as_map(news);
                assert(dir_as_map(news) =~= old(self)@.insert(e.name, e)) by {
                    assert forall|k: usize| dir_as_map(news).contains_key(k) implies old(
                        self,
                    )@.insert(e.name, e).contains_key(k) && dir_as_map(news)[k] == old(
                        self,
                    )@.insert(e.name, e)[k] by {
                        let i = choose|i: int|
                            0 <= i < news.len() && (#[trigger] news[i]).name == k;
                        if i == pos {
                        } else {
                            assert(olds[i] == news[i]);
                        }
                    }
                    assert forall|k: usize|
                        old(self)@.insert(e.name, e).contains_key(k) implies dir_as_map(
                        news,
                    ).contains_key(k) by {
                        if k == e.name {
                            assert(news[pos as int].name == k);
                        } else {
                            let i = choose|i: int|
                                0 <= i < olds.len() && (#[trigger] olds[i]).name == k;
                            assert(news[i].name == k);
                        }
                    }
                }
            }
        } else {
            proof {
                assert(forall|j: int| pos <= j < n ==> (#[trigger] olds[j]).name > e.name);
            }
            self.entries.insert(pos, e);
            proof {
                let news = self.entries@;
                assert(news =~= olds.take(pos as int) + seq![e] + olds.skip(pos as int));
                assert(dir_sorted(news)) by {
                    assert(forall|j: int| 0 <= j < pos ==> news[j] == olds[j]);
                    assert(forall|j: int|
                        pos < j < news.len() ==> news[j] == olds[j - 1]);
                    assert(news[pos as int] == e);
                }
                lemma_dir_as_map(news);
                assert(dir_as_map(news) =~= old(self)@.insert(e.name, e)) by {
                    assert forall|k: usize| dir_as_map(news).contains_key(k) implies old(
                        self,
                    )@.insert(e.name, e).contains_key(k) && dir_as_map(news)[k] == old(
                        self,
                    )@.insert(e.name, e)[k] by {
                        let i = choose|i: int|
                            0 <= i < news.len() && (#[trigger] news[i]).name == k;
                        if i < pos {
                            assert(olds[i] == news[i]);
                        } else if i == pos {
                        } else {
                            assert(olds[i - 1] == news[i]);
                        }
                    }
                    assert forall|k: usize|
                        old(self)@.insert(e.name, e).contains_key(k) implies dir_as_map(
                        news,
                    ).contains_key(k) by {
                        if k == e.name {
                            assert(news[pos as int].name == k);
                        } else {
                            let i = choose|i: int|
                                0 <= i < olds.len() && (#[trigger] olds[i]).name == k;
                            if i < pos {
                                assert(news[i].name == k);
                            } else {
                                assert(news[i + 1].name == k);
                            }
                        }
                    }
                }
            }
        }
    }

    /// Removes `key` from the directory, if present.
    pub fn remove(&mut self, key: usize)
        requires
            old(self).wf(),
        ensures
            final(self).wf(),
            final(self)@ == old(self)@.remove(key),
    {
        proof {
            lemma_dir_as_map(self.entries@);
        }
        let ghost olds = self.entries@;
        let n = self.entries.len();
        let mut i: usize = 0;
        while i < n
            invariant
                i <= n,
                n == self.entries@.len(),
                self.entries@ == olds,
                olds == old(self).entries@,
                dir_sorted(olds),
                forall|j: int| 0 <= j < i ==> (#[trigger] olds[j]).name != key,
            decreases n - i,
        {
            if self.entries[i].name == key {
                self.entries.remove(i);
                proof {
                    lemma_dir_as_map(olds);
                    let news = self.entries@;
                    assert(news =~= olds.take(i as int) + olds.skip(i as int + 1));
                    assert(dir_sorted(news)) by {
                        assert(forall|j: int| 0 <= j < i ==> news[j] == olds[j]);
                        assert(forall|j: int|
                            i <= j < news.len() ==> news[j] == olds[j + 1]);
                    }
                    lemma_dir_as_map(news);
                    assert(dir_as_map(news) =~= old(self)@.remove(key)) by {
                        assert forall|k: usize| dir_as_map(news).contains_key(k) implies old(
                            self,
                        )@.remove(key).contains_key(k) && dir_as_map(news)[k] == old(
                            self,
                        )@.remove(key)[k] by {
                            let j = choose|j: int|
                                0 <= j < news.len() && (#[trigger] news[j]).name == k;
                            if j < i {
                                assert(olds[j] == news[j]);
                            } else {
                                assert(olds[j + 1] == news[j]);
                            }
                        }
                        assert forall|k: usize|
                            old(self)@.remove(key).contains_key(k) implies dir_as_map(
                            news,
                        ).contains_key(k) by {
                            let j = choose|j: int|
                                0 <= j < olds.len() && (#[trigger] olds[j]).name == k;
                            if j < i {
                                assert(news[j].name == k);
                            } else {
                                assert(news[j - 1].name == k);
                            }
                        }
                    }
                }
                return ;
            }
            i = i + 1;
        }
        proof {
            assert(!old(self)@.contains_key(key));
            assert(old(self)@.remove(key) =~= old(self)@);
        }
    }
}

/// A sorted directory's map has as many keys as the list has entries.
pub proof fn lemma_dir_len(s: Seq<DirEntry>)
    requires
        dir_sorted(s),
    ensures
        dir_as_map(s).dom().finite(),
        dir_as_map(s).dom().len() == s.len(),
    decreases s.len(),
{
    if s.len() > 0 {
        let butlast = s.drop_last();
        assert(dir_sorted(butlast)) by {
            assert(forall|i: int| 0 <= i < butlast.len() ==> butlast[i] == s[i]);
        }
        lemma_dir_len(butlast);
        lemma_dir_as_map(butlast);
        assert(!dir_as_map(butlast).contains_key(s.last().name)) by {
            if dir_as_map(butlast).contains_key(s.last().name) {
                let i = choose|i: int|
                    0 <= i < butlast.len() && (#[trigger] butlast[i]).name == s.last().name;
                assert(s[i].name < s.last().name);
            }
        }
    }
}

} // verus!
