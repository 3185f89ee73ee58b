use vstd::prelude::*;
use vstd::string::*;
use crate::assoc::{keys_unique, to_map, has_key, find_key, put, lemma_value_at, lemma_remove_at, lemma_rekey, names};

verus! {

/// An in-memory project file tree: relative `/`-separated paths of files
/// (with their bytes) and of directories (with `None`).
pub struct FileTree {
    pub entries: Vec<(String, Option<Vec<u8>>)>,
}

/// The view of one entry: `None` for a directory, the bytes of a file.
pub open spec fn entry_view(e: Option<Vec<u8>>) -> Option<Seq<u8>> {
    match e {
        Some(b) => Some(b@),
        None => None,
    }
}

pub open spec fn slash() -> Seq<char> {
    seq!['/']
}

/// `p` is the directory `d` or lies inside it.
pub open spec fn under(p: Seq<char>, d: Seq<char>) -> bool {
    p == d || (d + slash()).is_prefix_of(p)
}

impl FileTree {
    pub open spec fn wf(self) -> bool {
        keys_unique(self.entries@)
    }

    /// Each path and what stands there.
    pub open spec fn view(self) -> Map<Seq<char>, Option<Seq<u8>>> {
        to_map(self.entries@).map_values(|e: Option<Vec<u8>>| entry_view(e))
    }

    pub fn new() -> (r: FileTree)
        ensures
            r.wf(),
            r@ == Map::<Seq<char>, Option<Seq<u8>>>::empty(),
    {
        let r = FileTree { entries: Vec::new() };
        assert(r@ =~= Map::<Seq<char>, Option<Seq<u8>>>::empty());
        r
    }

    /// Puts a directory at `path`, replacing what stood there.
    pub fn add_dir(&mut self, path: String)
        requires
            old(self).wf(),
        ensures
            final(self).wf(),
            final(self)@ == old(self)@.insert(path@, None),
    {
        let ghost before = self.entries@;
        put(&mut self.entries, path, None);
        assert(self@ =~= to_map(before).map_values(|e: Option<Vec<u8>>| entry_view(e)).insert(path@, None));
    }

    /// Puts a file with `content` at `path`, replacing what stood there.
    pub fn add_file(&mut self, path: String, content: Vec<u8>)
        requires
            old(self).wf(),
        ensures
            final(self).wf(),
            final(self)@ == old(self)@.insert(path@, Some(content@)),
    {
        let ghost before = self.entries@;
        let ghost cv = content@;
        put(&mut self.entries, path, Some(content));
        assert(self@ =~= to_map(before).map_values(|e: Option<Vec<u8>>| entry_view(e)).insert(path@, Some(cv)));
    }

    /// What stands at `path`: `Some(None)` for a directory, `Some(Some(bytes))` for a file.
    pub fn get(&self, path: &String) -> (r: Option<&Option<Vec<u8>>>)
        requires
            self.wf(),
        ensures
            match r {
                Some(e) => self@.contains_key(path@) && self@[path@] == entry_view(*e),
                None => !self@.contains_key(path@),
            },
    {
        match find_key(&self.entries, path) {
            Some(i) => {
                proof {
                    lemma_value_at(self.entries@, i as int);
                }
                Some(&self.entries[i].1)
            },
            None => None,
        }
    }
}

/// `m` with the entry at `from` moved to `to`.
pub open spec fn renamed(m: Map<Seq<char>, Option<Seq<u8>>>, from: Seq<char>, to: Seq<char>) -> Map<Seq<char>, Option<Seq<u8>>> {
    m.remove(from).insert(to, m[from])
}

/// `m` without the entries at or inside `d`.
pub open spec fn without_under(m: Map<Seq<char>, Option<Seq<u8>>>, d: Seq<char>) -> Map<Seq<char>, Option<Seq<u8>>> {
    Map::new(|x: Seq<char>| m.contains_key(x) && !under(x, d), |x: Seq<char>| m[x])
}

impl FileTree {
    /// Moves the entry at `from` to the free path `to`.
    pub fn rename_entry(&mut self, from: &String, to: String)
        requires
            old(self).wf(),
            old(self)@.contains_key(from@),
            !old(self)@.contains_key(to@),
        ensures
            final(self).wf(),
            final(self)@ == renamed(old(self)@, from@, to@),
    {
        let ghost before = self.entries@;
        let i = match find_key(&self.entries, from) {
            Some(i) => i,
            None => {
                assert(false);
                0
            },
        };
        proof {
            lemma_value_at(before, i as int);
        }
        let e = self.entries.remove(i);
        let ghost to_v = to@;
        let ne = (to, e.1);
        proof {
            assert(!has_key(before, to_v)) by {
                if has_key(before, to_v) {
                    let j = choose|j: int| 0 <= j < before.len() && before[j].0@ == to_v;
                    lemma_value_at(before, j);
                }
            }
            lemma_rekey(before, i as int, ne);
            assert(self.entries@.insert(i as int, ne) =~= before.update(i as int, ne));
        }
        self.entries.insert(i, ne);
        proof {
            assert(self@ =~= renamed(to_map(before).map_values(|e: Option<Vec<u8>>| entry_view(e)), from@, to_v));
        }
    }

    /// Removes the entry at `path`.
    pub fn remove_entry(&mut self, path: &String)
        requires
            old(self).wf(),
        ensures
            final(self).wf(),
            final(self)@ == old(self)@.remove(path@),
    {
        let ghost before = self.entries@;
        match find_key(&self.entries, path) {
            Some(i) => {
                proof {
                    lemma_value_at(before, i as int);
                    lemma_remove_at(before, i as int);
                }
                self.entries.remove(i);
                proof {
                    assert(self@ =~= to_map(before).map_values(|e: Option<Vec<u8>>| entry_view(e)).remove(path@));
                }
            },
            None => {
                assert(self@ =~= self@.remove(path@));
            },
        }
    }

    /// The paths at or inside `d`, each once.
    pub fn paths_under(&self, d: &String) -> (r: Vec<String>)
        requires
            self.wf(),
        ensures
            names(r@).no_duplicates(),
            forall|x: Seq<char>| #[trigger] names(r@).contains(x) == (self@.contains_key(x) && under(x, d@)),
    {
        let mut r: Vec<String> = Vec::new();
        let mut i: usize = 0;
        while i < self.entries.len()
            invariant
                self.wf(),
                i <= self.entries@.len(),
                names(r@).no_duplicates(),
                forall|x: Seq<char>| #[trigger] names(r@).contains(x) == (exists|j: int| 0 <= j < i && #[trigger] self.entries@[j].0@ == x && under(x, d@)),
            decreases self.entries@.len() - i,
        {
            if is_under(&self.entries[i].0, d) {
                let ghost before = r@;
                let ghost x = self.entries@[i as int].0@;
                proof {
                    assert(!names(before).contains(x)) by {
                        if names(before).contains(x) {
                            let j = choose|j: int| 0 <= j < i && #[trigger] self.entries@[j].0@ == x && under(x, d@);
                            assert(self.entries@[j].0@ == self.entries@[i as int].0@);
                        }
                    }
                }
                r.push(self.entries[i].0.clone());
                proof {
                    assert(names(r@) =~= names(before).push(x));
                    assert forall|y: Seq<char>| #[trigger] names(r@).contains(y) == (exists|j: int| 0 <= j < i + 1 && #[trigger] self.entries@[j].0@ == y && under(y, d@)) by {
                        if names(r@).contains(y) {
                            let k = choose|k: int| 0 <= k < names(r@).len() && names(r@)[k] == y;
                            if k < before.len() {
                                assert(names(before)[k] == y);
                                assert(names(before).contains(y));
                                let j = choose|j: int| 0 <= j < i && #[trigger] self.entries@[j].0@ == y && under(y, d@);
                                assert(0 <= j < i + 1 && self.entries@[j].0@ == y && under(y, d@));
                            } else {
                                assert(y == x);
                                assert(self.entries@[i as int].0@ == y && under(y, d@));
                            }
                        }
                        if exists|j: int| 0 <= j < i + 1 && #[trigger] self.entries@[j].0@ == y && under(y, d@) {
                            let j = choose|j: int| 0 <= j < i + 1 && #[trigger] self.entries@[j].0@ == y && under(y, d@);
                            if j < i {
                                assert(names(before).contains(y));
                                let k = choose|k: int| 0 <= k < names(before).len() && names(before)[k] == y;
                                assert(names(r@)[k] == y);
                            } else {
                                assert(names(r@)[before.len() as int] == y);
                            }
                        }
                    }
                }
            }
            i += 1;
        }
        proof {
            assert forall|x: Seq<char>| #[trigger] names(r@).contains(x) == (self@.contains_key(x) && under(x, d@)) by {
                if self@.contains_key(x) {
                    let j = choose|j: int| 0 <= j < self.entries@.len() && self.entries@[j].0@ == x;
                }
            }
        }
        r
    }

    /// Removes every entry at or inside `d`.
    pub fn remove_under(&mut self, d: &String)
        requires
            old(self).wf(),
        ensures
            final(self).wf(),
            final(self)@ == without_under(old(self)@, d@),
    {
        let paths = self.paths_under(d);
        let ghost start = self@;
        let mut i: usize = 0;
        while i < paths.len()
            invariant
                self.wf(),
                i <= paths@.len(),
                forall|x: Seq<char>| #[trigger] names(paths@).contains(x) == (start.contains_key(x) && under(x, d@)),
                self@ == Map::new(|x: Seq<char>| start.contains_key(x) && !(exists|k: int| 0 <= k < i && #[trigger] paths@[k]@ == x), |x: Seq<char>| start[x]),
            decreases paths@.len() - i,
        {
            let ghost before = self@;
            self.remove_entry(&paths[i]);
            proof {
                assert(self@ =~= Map::new(|x: Seq<char>| start.contains_key(x) && !(exists|k: int| 0 <= k < i + 1 && #[trigger] paths@[k]@ == x), |x: Seq<char>| start[x]));
            }
            i += 1;
        }
        proof {
            assert forall|x: Seq<char>| (exists|k: int| 0 <= k < paths@.len() && #[trigger] paths@[k]@ == x) == (start.contains_key(x) && under(x, d@)) by {
                if exists|k: int| 0 <= k < paths@.len() && #[trigger] paths@[k]@ == x {
                    let k = choose|k: int| 0 <= k < paths@.len() && #[trigger] paths@[k]@ == x;
                    assert(names(paths@)[k] == x);
                    assert(names(paths@).contains(x));
                }
                if start.contains_key(x) && under(x, d@) {
                    assert(names(paths@).contains(x));
                    let k = choose|k: int| 0 <= k < names(paths@).len() && names(paths@)[k] == x;
                    assert(paths@[k]@ == x);
                }
            }
            assert(self@ =~= without_under(start, d@));
        }
    }
}

/// Whether `s` starts with `prefix`.
pub fn starts_with(s: &str, prefix: &str) -> (r: bool)
    ensures
        r == prefix@.is_prefix_of(s@),
{
    let n = prefix.unicode_len();
    if s.unicode_len() < n {
        return false;
    }
    let mut i: usize = 0;
    while i < n
        invariant
            n == prefix@.len(),
            n <= s@.len(),
            i <= n,
            forall|k: int| 0 <= k < i ==> prefix@[k] == s@[k],
        decreases n - i,
    {
        if prefix.get_char(i) != s.get_char(i) {
            return false;
        }
        i += 1;
    }
    assert(prefix@ =~= s@.subrange(0, n as int));
    true
}

/// Whether `p` is the directory `d` or lies inside it.
pub fn is_under(p: &String, d: &String) -> (r: bool)
    ensures
        r == under(p@, d@),
{
    if *p == *d {
        return true;
    }
    let ds = d.clone().concat("/");
    proof {
        reveal_strlit("/");
        assert("/"@ =~= slash());
    }
    starts_with(p.as_str(), ds.as_str())
}

} // verus!
