//! The filesystem seen by the cache: three fallible calls (read a file,
//! observe its modification time, canonicalize a path).
//!
//! A filesystem value carries a spec-level `model`: the contents it answers
//! with, keyed by canonical path. The contract promises only the model's own
//! keys — on a real disk the model is a snapshot and anything off it (alias
//! paths, files changing between calls) stays unpromised, so every cache
//! operation still states what holds of each possible outcome. The
//! in-memory implementation here has a fixed model, which is what makes the
//! cache's identity guarantees provable end to end; a host backed by the
//! real filesystem implements the trait outside the verified library.

use vstd::prelude::*;

verus! {

/// Access to source files by path. Errors are carried as plain messages.
pub trait FileSystem {
    /// The contents this filesystem answers with: canonical path to
    /// (text, modification tick). The default is the empty model: such an
    /// implementation (a real disk, whose contents can change underfoot)
    /// promises nothing, and every cache guarantee conditioned on the model
    /// is vacuous for it.
    open spec fn model(&self) -> Map<Seq<char>, (Seq<char>, u64)> {
        Map::empty()
    }

    /// Read the full text of the file at `path`.
    fn read_source(&self, path: &String) -> (r: Result<String, String>)
        ensures
            self.model().contains_key(path@) ==> (r matches Ok(c) && c@ == self.model()[path@].0);

    /// The modification time of the file at `path`, as an opaque tick count.
    fn timestamp(&self, path: &String) -> (r: Result<u64, String>)
        ensures
            self.model().contains_key(path@) ==> (r matches Ok(t) && t == self.model()[path@].1);

    /// Resolve `path` to its canonical form, or fail (e.g. the path does not
    /// exist). A canonical path resolves to itself.
    fn canonicalize(&self, path: &String) -> (r: Option<String>)
        ensures
            self.model().contains_key(path@) ==> (r matches Some(p) && p@ == path@),
            r matches Some(p) ==> self.model().contains_key(p@);
}

/// The first-match view of an entry list: earlier entries shadow later ones
/// with the same path, as the scan below finds them.
pub open spec fn entries_model(s: Seq<(String, String, u64)>) -> Map<Seq<char>, (Seq<char>, u64)>
    decreases s.len(),
{
    if s.len() == 0 {
        Map::empty()
    } else {
        let rest = entries_model(s.drop_last());
        if rest.contains_key(s.last().0@) {
            rest
        } else {
            rest.insert(s.last().0@, (s.last().1@, s.last().2))
        }
    }
}

/// An in-memory filesystem: a list of (canonical path, content, timestamp)
/// entries. Canonicalization succeeds exactly on the stored paths and is the
/// identity on them.
pub struct MemoryFs {
    pub entries: Vec<(String, String, u64)>,
}

proof fn lemma_entries_model_first(s: Seq<(String, String, u64)>, i: int)
    requires
        0 <= i < s.len(),
        forall|j: int| 0 <= j < i ==> (#[trigger] s[j]).0@ != s[i].0@,
    ensures
        entries_model(s).contains_key(s[i].0@),
        entries_model(s)[s[i].0@] == (s[i].1@, s[i].2),
    decreases s.len(),
{
    if i < s.len() - 1 {
        assert(forall|j: int|
            0 <= j < s.drop_last().len() ==> (#[trigger] s.drop_last()[j]) == s[j]);
        lemma_entries_model_first(s.drop_last(), i);
        let rest = entries_model(s.drop_last());
        assert(rest.contains_key(s[i].0@) && rest[s[i].0@] == (s[i].1@, s[i].2));
        if s.last().0@ == s[i].0@ {
            assert(rest.contains_key(s.last().0@));
            assert(entries_model(s) == rest);
        } else {
            assert(entries_model(s)[s[i].0@] == rest[s[i].0@]);
        }
        assert(entries_model(s)[s[i].0@] == (s[i].1@, s[i].2));
    } else {
        if s.len() > 1 {
            assert(forall|j: int|
                0 <= j < s.drop_last().len() ==> (#[trigger] s.drop_last()[j]) == s[j]);
            lemma_entries_model_absent(s.drop_last(), s[i].0@);
        }
        assert(!entries_model(s.drop_last()).contains_key(s[i].0@));
        assert(s.last() == s[i]);
        assert(entries_model(s)[s[i].0@] == (s[i].1@, s[i].2));
    }
}

proof fn lemma_entries_model_absent(s: Seq<(String, String, u64)>, k: Seq<char>)
    requires
        forall|j: int| 0 <= j < s.len() ==> (#[trigger] s[j]).0@ != k,
    ensures
        !entries_model(s).contains_key(k),
    decreases s.len(),
{
    if s.len() > 0 {
        assert(forall|j: int|
            0 <= j < s.drop_last().len() ==> (#[trigger] s.drop_last()[j]) == s[j]);
        lemma_entries_model_absent(s.drop_last(), k);
    }
}

impl MemoryFs {
    pub fn new() -> (r: MemoryFs)
        ensures
            r.entries@.len() == 0,
            r.model() == Map::<Seq<char>, (Seq<char>, u64)>::empty(),
    {
        MemoryFs { entries: Vec::new() }
    }

    /// Add or redefine a file.
    pub fn add(&mut self, path: String, content: String, timestamp: u64)
        ensures
            final(self).entries@ == old(self).entries@.push((path, content, timestamp)),
    {
        self.entries.push((path, content, timestamp));
    }

    fn find(&self, path: &String) -> (r: Option<usize>)
        ensures
            match r {
                Some(i) => i < self.entries@.len() && self.entries@[i as int].0@ == path@
                    && self.model().contains_key(path@) && self.model()[path@] == (
                    self.entries@[i as int].1@,
                    self.entries@[i as int].2,
                ),
                None => !self.model().contains_key(path@),
            },
    {
        let mut i: usize = 0;
        while i < self.entries.len()
            invariant
                i <= self.entries@.len(),
                forall|j: int| 0 <= j < i ==> (#[trigger] self.entries@[j]).0@ != path@,
            decreases self.entries@.len() - i,
        {
            if self.entries[i].0 == *path {
                proof {
                    lemma_entries_model_first(self.entries@, i as int);
                }
                return Some(i);
            }
            i = i + 1;
        }
        proof {
            lemma_entries_model_absent(self.entries@, path@);
        }
        None
    }
}

impl FileSystem for MemoryFs {
    open spec fn model(&self) -> Map<Seq<char>, (Seq<char>, u64)> {
        entries_model(self.entries@)
    }

    fn read_source(&self, path: &String) -> (r: Result<String, String>) {
        match self.find(path) {
            Some(i) => Ok(self.entries[i].1.clone()),
            None => Err("no such file".to_owned()),
        }
    }

    fn timestamp(&self, path: &String) -> (r: Result<u64, String>) {
        match self.find(path) {
            Some(i) => Ok(self.entries[i].2),
            None => Err("no such file".to_owned()),
        }
    }

    fn canonicalize(&self, path: &String) -> (r: Option<String>) {
        match self.find(path) {
            Some(i) => Some(self.entries[i].0.clone()),
            None => None,
        }
    }
}

} // verus!
