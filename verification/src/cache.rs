//! The source cache: a content store of immutable source texts behind opaque
//! handles, a name index from logical names to handles, a stage cache of
//! parsed terms with their pipeline stage, and the pipeline driver that runs
//! parse, typecheck and transform each at most once per handle.

use vstd::prelude::*;
use vstd::pervasive::unreached;
use crate::error::{Error, ImportError, ParseError, TypecheckError};
use crate::fs::FileSystem;
use crate::parser::parse_source;
use crate::position::RawSpan;
use crate::store::{file_index, files_add, files_model, files_name, files_new, files_source,
    id_eq};
use crate::term::{clone_term, no_imports, resolves_to, Term};
use crate::transform::{resolve_imports, resolve_imports_fields, PendingImport};
use crate::typecheck::{names_of, spec_typechecks, type_check, Environment};

verus! {

/// A name-index entry: the current handle for a logical name, and, for
/// filesystem sources, the modification time observed at load. A `None`
/// timestamp marks a source with no staleness check (in-memory strings).
#[derive(Clone, Copy, Debug, PartialEq)]
pub struct NameIdEntry {
    pub id: codespan::FileId,
    pub timestamp: Option<u64>,
}

/// The pipeline stage of a stage-cache entry, totally ordered
/// `Parsed < Typechecked < Transformed`.
#[derive(Eq, PartialEq, Ord, PartialOrd, Debug, Copy, Clone, Structural)]
pub enum EntryState {
    Parsed,
    Typechecked,
    Transformed,
}

/// The rank of a stage in the pipeline order.
pub open spec fn state_rank(s: EntryState) -> int {
    match s {
        EntryState::Parsed => 0,
        EntryState::Typechecked => 1,
        EntryState::Transformed => 2,
    }
}

/// The result of a cache operation: `Done` when actual work was performed,
/// `Cached` when the entry was already at a late enough stage.
#[derive(Eq, PartialEq, Ord, PartialOrd, Debug, Copy, Clone, Structural)]
pub enum CacheOp {
    Done,
    Cached,
}

/// Wrapper around other errors to tell an ordinary failure apart from the
/// stage-precondition violation "typecheck or transform invoked before
/// parse". The driver's own `prepare` proves the violation never happens.
#[derive(Debug, PartialEq)]
pub enum CacheError<E> {
    Error(E),
    NotParsed,
}

impl<E> From<E> for CacheError<E> {
    fn from(e: E) -> (r: Self) {
        CacheError::Error(e)
    }
}

impl<E> vstd::std_specs::convert::FromSpecImpl<E> for CacheError<E> {
    open spec fn obeys_from_spec() -> bool {
        true
    }

    open spec fn from_spec(e: E) -> Self {
        CacheError::Error(e)
    }
}

impl<E> CacheError<E> {
    /// Extract the ordinary error. The caller must have ruled `NotParsed`
    /// out: reaching it is a caller bug, fatal by design, and this library's
    /// verified callers prove it unreachable instead of panicking.
    pub fn expect_err(self, _msg: &str) -> (r: E)
        requires
            self is Error,
        ensures
            self == CacheError::Error(r),
    {
        match self {
            CacheError::Error(err) => err,
            CacheError::NotParsed => unreached(),
        }
    }
}

/// How an import was resolved: loaded and parsed for the first time (the term
/// is handed to the caller and is *not* yet in the stage cache), or already
/// known under its normalized path.
#[derive(Debug, PartialEq)]
pub enum ResolvedTerm {
    FromFile {
        /// The freshly parsed term.
        term: Term,
        /// The path of the import as written, used to resolve nested imports.
        path: String,
    },
    FromCache(),
}

/// The name index as a map from normalized name to its entry: later bindings
/// supersede earlier ones.
pub closed spec fn names_map(s: Seq<(String, NameIdEntry)>) -> Map<Seq<char>, NameIdEntry>
    decreases s.len(),
{
    if s.len() == 0 {
        Map::empty()
    } else {
        names_map(s.drop_last()).insert(s.last().0@, s.last().1)
    }
}

/// The stage cache as a map from handle index to (term, stage).
pub closed spec fn entries_map(s: Seq<(codespan::FileId, Term, EntryState)>) -> Map<
    int,
    (Term, EntryState),
>
    decreases s.len(),
{
    if s.len() == 0 {
        Map::empty()
    } else {
        entries_map(s.drop_last()).insert(file_index(s.last().0), (s.last().1, s.last().2))
    }
}

spec fn unique_names(s: Seq<(String, NameIdEntry)>) -> bool {
    forall|i: int, j: int|
        0 <= i < j < s.len() ==> (#[trigger] s[i]).0@ != (#[trigger] s[j]).0@
}

spec fn unique_entries(s: Seq<(codespan::FileId, Term, EntryState)>) -> bool {
    forall|i: int, j: int|
        0 <= i < j < s.len() ==> file_index((#[trigger] s[i]).0) != file_index((#[trigger] s[j]).0)
}

proof fn lemma_names_map_at(s: Seq<(String, NameIdEntry)>, i: int)
    requires
        unique_names(s),
        0 <= i < s.len(),
    ensures
        names_map(s).contains_key(s[i].0@),
        names_map(s)[s[i].0@] == s[i].1,
    decreases s.len(),
{
    if i < s.len() - 1 {
        assert(s.drop_last()[i] == s[i]);
        assert(unique_names(s.drop_last())) by {
            assert(forall|a: int, b: int|
                0 <= a < b < s.drop_last().len() ==> s.drop_last()[a] == s[a] && s.drop_last()[b]
                    == s[b]);
        }
        lemma_names_map_at(s.drop_last(), i);
        assert(s[i].0@ != s.last().0@);
    }
}

proof fn lemma_names_map_absent(s: Seq<(String, NameIdEntry)>, k: Seq<char>)
    requires
        forall|i: int| 0 <= i < s.len() ==> (#[trigger] s[i]).0@ != k,
    ensures
        !names_map(s).contains_key(k),
    decreases s.len(),
{
    if s.len() > 0 {
        assert(forall|i: int|
            0 <= i < s.drop_last().len() ==> (#[trigger] s.drop_last()[i]) == s[i]);
        lemma_names_map_absent(s.drop_last(), k);
    }
}

proof fn lemma_names_map_push(s: Seq<(String, NameIdEntry)>, p: (String, NameIdEntry))
    ensures
        names_map(s.push(p)) == names_map(s).insert(p.0@, p.1),
{
    assert(s.push(p).drop_last() =~= s);
    assert(s.push(p).last() == p);
}

proof fn lemma_names_map_update(s: Seq<(String, NameIdEntry)>, i: int, p: (String, NameIdEntry))
    requires
        unique_names(s),
        0 <= i < s.len(),
        s[i].0@ == p.0@,
    ensures
        names_map(s.update(i, p)) == names_map(s).insert(p.0@, p.1),
        unique_names(s.update(i, p)),
    decreases s.len(),
{
    let t = s.update(i, p);
    assert(unique_names(t)) by {
        assert(forall|a: int| 0 <= a < t.len() && a != i ==> (#[trigger] t[a]) == s[a]);
    }
    if i == s.len() - 1 {
        assert(t.drop_last() =~= s.drop_last());
        assert(t.last() == p);
        assert(names_map(t) =~= names_map(s).insert(p.0@, p.1)) by {
            lemma_names_map_at(s, i);
        }
    } else {
        assert(t.drop_last() =~= s.drop_last().update(i, p));
        assert(unique_names(s.drop_last())) by {
            assert(forall|a: int|
                0 <= a < s.drop_last().len() ==> (#[trigger] s.drop_last()[a]) == s[a]);
        }
        assert(s.drop_last()[i] == s[i]);
        lemma_names_map_update(s.drop_last(), i, p);
        assert(t.last() == s.last());
        // the two inserted keys differ, so the inserts commute
        assert(s[i].0@ != s.last().0@);
        assert(names_map(t) =~= names_map(s).insert(p.0@, p.1));
    }
}

proof fn lemma_entries_map_at(s: Seq<(codespan::FileId, Term, EntryState)>, i: int)
    requires
        unique_entries(s),
        0 <= i < s.len(),
    ensures
        entries_map(s).contains_key(file_index(s[i].0)),
        entries_map(s)[file_index(s[i].0)] == (s[i].1, s[i].2),
    decreases s.len(),
{
    if i < s.len() - 1 {
        assert(s.drop_last()[i] == s[i]);
        assert(unique_entries(s.drop_last())) by {
            assert(forall|a: int|
                0 <= a < s.drop_last().len() ==> (#[trigger] s.drop_last()[a]) == s[a]);
        }
        lemma_entries_map_at(s.drop_last(), i);
        assert(file_index(s[i].0) != file_index(s.last().0));
    }
}

proof fn lemma_entries_map_absent(s: Seq<(codespan::FileId, Term, EntryState)>, k: int)
    requires
        forall|i: int| 0 <= i < s.len() ==> file_index((#[trigger] s[i]).0) != k,
    ensures
        !entries_map(s).contains_key(k),
    decreases s.len(),
{
    if s.len() > 0 {
        assert(forall|i: int|
            0 <= i < s.drop_last().len() ==> (#[trigger] s.drop_last()[i]) == s[i]);
        lemma_entries_map_absent(s.drop_last(), k);
    }
}

proof fn lemma_entries_map_push(
    s: Seq<(codespan::FileId, Term, EntryState)>,
    p: (codespan::FileId, Term, EntryState),
)
    ensures
        entries_map(s.push(p)) == entries_map(s).insert(file_index(p.0), (p.1, p.2)),
{
    assert(s.push(p).drop_last() =~= s);
    assert(s.push(p).last() == p);
}

proof fn lemma_entries_map_update(
    s: Seq<(codespan::FileId, Term, EntryState)>,
    i: int,
    p: (codespan::FileId, Term, EntryState),
)
    requires
        unique_entries(s),
        0 <= i < s.len(),
        file_index(s[i].0) == file_index(p.0),
    ensures
        entries_map(s.update(i, p)) == entries_map(s).insert(file_index(p.0), (p.1, p.2)),
        unique_entries(s.update(i, p)),
    decreases s.len(),
{
    let t = s.update(i, p);
    assert(unique_entries(t)) by {
        assert(forall|a: int| 0 <= a < t.len() && a != i ==> (#[trigger] t[a]) == s[a]);
    }
    if i == s.len() - 1 {
        assert(t.drop_last() =~= s.drop_last());
        assert(t.last() == p);
        assert(entries_map(t) =~= entries_map(s).insert(file_index(p.0), (p.1, p.2))) by {
            lemma_entries_map_at(s, i);
        }
    } else {
        assert(t.drop_last() =~= s.drop_last().update(i, p));
        assert(unique_entries(s.drop_last())) by {
            assert(forall|a: int|
                0 <= a < s.drop_last().len() ==> (#[trigger] s.drop_last()[a]) == s[a]);
        }
        assert(s.drop_last()[i] == s[i]);
        lemma_entries_map_update(s.drop_last(), i, p);
        assert(t.last() == s.last());
        assert(file_index(s[i].0) != file_index(s.last().0));
        assert(entries_map(t) =~= entries_map(s).insert(file_index(p.0), (p.1, p.2)));
    }
}

/// The cache: content store, name index and stage cache, plus the filesystem
/// capability every load goes through.
pub struct Cache<F: FileSystem> {
    fs: F,
    files: codespan::Files<String>,
    n_files: usize,
    file_ids: Vec<(String, NameIdEntry)>,
    terms: Vec<(codespan::FileId, Term, EntryState)>,
}

impl<F: FileSystem> Cache<F> {
    /// The filesystem capability loads go through, as a spec-level value.
    pub closed spec fn filesystem(&self) -> F {
        self.fs
    }

    /// The content store: one (name, source) pair per handle, in insertion
    /// order; the handle's index addresses it and is never reused.
    pub closed spec fn store(&self) -> Seq<(Seq<char>, Seq<char>)> {
        files_model(self.files)
    }

    /// The name index: normalized logical name to current entry.
    pub closed spec fn names(&self) -> Map<Seq<char>, NameIdEntry> {
        names_map(self.file_ids@)
    }

    /// The stage cache: handle index to (term, stage).
    pub closed spec fn entries(&self) -> Map<int, (Term, EntryState)> {
        entries_map(self.terms@)
    }

    /// Whether a handle denotes a slot of this cache's content store.
    pub open spec fn valid_id(&self, id: codespan::FileId) -> bool {
        0 <= file_index(id) < self.store().len()
    }

    /// Internal consistency: unique keys, and every indexed handle points
    /// into the content store.
    pub closed spec fn wf(&self) -> bool {
        &&& self.n_files == self.store().len()
        &&& self.store().len() <= 0xffff_ffff
        &&& unique_names(self.file_ids@)
        &&& unique_entries(self.terms@)
        &&& forall|i: int|
            0 <= i < self.file_ids@.len() ==> 0 <= file_index(
                (#[trigger] self.file_ids@[i]).1.id,
            ) < self.store().len()
        &&& forall|i: int|
            0 <= i < self.terms@.len() ==> 0 <= file_index((#[trigger] self.terms@[i]).0)
                < self.store().len()
    }

    /// Store and name index unchanged.
    pub open spec fn same_maps(&self, prior: &Self) -> bool {
        self.store() == prior.store() && self.names() == prior.names()
    }

    /// The load was answered from the name index: nothing changed, the
    /// handle is the one already bound, and the binding carried a recorded
    /// timestamp (only a timestamped binding can answer a load).
    pub open spec fn load_hit(&self, prior: &Self, id: codespan::FileId, name: Seq<char>) -> bool {
        &&& self.same_maps(prior)
        &&& prior.names().contains_key(name)
        &&& id == prior.names()[name].id
        &&& prior.names()[name].timestamp is Some
    }

    /// A fresh handle was minted: it addresses the one slot the store grew
    /// by, holding `name` and the content the filesystem returned.
    pub open spec fn loaded_fresh(&self, prior: &Self, id: codespan::FileId, name: Seq<char>) -> bool {
        &&& file_index(id) == prior.store().len()
        &&& exists|content: Seq<char>| self.store() == prior.store().push((name, content))
    }

    /// A fresh load was also bound in the name index, with the timestamp
    /// observed at load.
    pub open spec fn loaded_fresh_named(
        &self,
        prior: &Self,
        id: codespan::FileId,
        name: Seq<char>,
    ) -> bool {
        &&& self.loaded_fresh(prior, id, name)
        &&& exists|ts: u64|
            self.names() == prior.names().insert(name, NameIdEntry { id, timestamp: Some(ts) })
    }

    /// Every name-index entry of `prior` is still bound, unchanged; the
    /// store may only have grown at the end.
    pub open spec fn preserves(&self, prior: &Self) -> bool {
        &&& prior.store().is_prefix_of(self.store())
        &&& forall|k: Seq<char>|
            #[trigger] prior.names().contains_key(k) ==> self.names().contains_key(k)
                && self.names()[k] == prior.names()[k]
    }

    pub fn new(fs: F) -> (r: Cache<F>)
        ensures
            r.wf(),
            r.store().len() == 0,
            r.names() == Map::<Seq<char>, NameIdEntry>::empty(),
            r.entries() == Map::<int, (Term, EntryState)>::empty(),
    {
        Cache { fs, files: files_new(), n_files: 0, file_ids: Vec::new(), terms: Vec::new() }
    }

    /// Find the position of a name in the name index.
    fn lookup_name(&self, name: &String) -> (r: Option<usize>)
        requires
            self.wf(),
        ensures
            match r {
                Some(i) => i < self.file_ids@.len() && self.file_ids@[i as int].0@ == name@
                    && self.names().contains_key(name@) && self.names()[name@]
                    == self.file_ids@[i as int].1,
                None => !self.names().contains_key(name@),
            },
    {
        let mut i: usize = 0;
        while i < self.file_ids.len()
            invariant
                self.wf(),
                i <= self.file_ids@.len(),
                forall|j: int| 0 <= j < i ==> (#[trigger] self.file_ids@[j]).0@ != name@,
            decreases self.file_ids@.len() - i,
        {
            if self.file_ids[i].0 == *name {
                proof {
                    lemma_names_map_at(self.file_ids@, i as int);
                }
                return Some(i);
            }
            i = i + 1;
        }
        proof {
            lemma_names_map_absent(self.file_ids@, name@);
        }
        None
    }

    /// Find the position of a handle in the stage cache.
    fn lookup_entry(&self, id: &codespan::FileId) -> (r: Option<usize>)
        requires
            self.wf(),
        ensures
            match r {
                Some(i) => i < self.terms@.len() && file_index(self.terms@[i as int].0)
                    == file_index(*id) && self.entries().contains_key(file_index(*id))
                    && self.entries()[file_index(*id)] == (
                    self.terms@[i as int].1,
                    self.terms@[i as int].2,
                ),
                None => !self.entries().contains_key(file_index(*id)),
            },
    {
        let mut i: usize = 0;
        while i < self.terms.len()
            invariant
                self.wf(),
                i <= self.terms@.len(),
                forall|j: int| 0 <= j < i ==> file_index((#[trigger] self.terms@[j]).0) != file_index(
                    *id,
                ),
            decreases self.terms@.len() - i,
        {
            if id_eq(&self.terms[i].0, id) {
                proof {
                    lemma_entries_map_at(self.terms@, i as int);
                }
                return Some(i);
            }
            i = i + 1;
        }
        proof {
            lemma_entries_map_absent(self.terms@, file_index(*id));
        }
        None
    }

    /// Bind `name` to `entry` in the name index, superseding any prior
    /// binding for the same name.
    fn register(&mut self, name: String, entry: NameIdEntry)
        requires
            old(self).wf(),
            old(self).valid_id(entry.id),
        ensures
            final(self).wf(),
            final(self).filesystem() == old(self).filesystem(),
            final(self).store() == old(self).store(),
            final(self).entries() == old(self).entries(),
            final(self).names() == old(self).names().insert(name@, entry),
    {
        let pos = self.lookup_name(&name);
        match pos {
            Some(i) => {
                proof {
                    lemma_names_map_update(self.file_ids@, i as int, (name, entry));
                }
                self.file_ids.set(i, (name, entry));
            },
            None => {
                proof {
                    lemma_names_map_push(self.file_ids@, (name, entry));
                    assert(forall|j: int|
                        0 <= j < self.file_ids@.len() ==> (#[trigger] self.file_ids@[j]).0@
                            != name@) by {
                        lemma_names_map_at_all(self.file_ids@);
                    }
                }
                self.file_ids.push((name, entry));
            },
        }
    }

    /// Set the stage-cache entry of a handle, replacing any prior one.
    fn set_entry(&mut self, id: codespan::FileId, term: Term, state: EntryState)
        requires
            old(self).wf(),
            old(self).valid_id(id),
        ensures
            final(self).wf(),
            final(self).filesystem() == old(self).filesystem(),
            final(self).store() == old(self).store(),
            final(self).names() == old(self).names(),
            final(self).entries() == old(self).entries().insert(
                file_index(id),
                (term, state),
            ),
    {
        let pos = self.lookup_entry(&id);
        match pos {
            Some(i) => {
                proof {
                    lemma_entries_map_update(self.terms@, i as int, (id, term, state));
                }
                self.terms.set(i, (id, term, state));
            },
            None => {
                proof {
                    lemma_entries_map_push(self.terms@, (id, term, state));
                    assert(forall|j: int|
                        0 <= j < self.terms@.len() ==> file_index((#[trigger] self.terms@[j]).0)
                            != file_index(id)) by {
                        lemma_entries_map_at_all(self.terms@);
                    }
                }
                self.terms.push((id, term, state));
            },
        }
    }
    /// Load content for `path` into the content store under a fresh handle.
    /// No name-index entry is created.
    fn load_file(&mut self, path: String) -> (r: Result<codespan::FileId, String>)
        requires
            old(self).wf(),
            old(self).store().len() < 0xffff_ffff,
        ensures
            final(self).wf(),
            final(self).filesystem() == old(self).filesystem(),
            final(self).names() == old(self).names(),
            final(self).entries() == old(self).entries(),
            match r {
                Ok(id) => final(self).loaded_fresh(old(self), id, path@),
                Err(_) => final(self).store() == old(self).store(),
            },
            old(self).filesystem().model().contains_key(path@) ==> (r matches Ok(id)
                && final(self).store() == old(self).store().push(
                (path@, old(self).filesystem().model()[path@].0),
            )),
    {
        match self.fs.read_source(&path) {
            Ok(content) => {
                let ghost c = content@;
                let id = files_add(&mut self.files, path, content);
                self.n_files = self.n_files + 1;
                proof {
                    assert(self.store() == old(self).store().push((path@, c)));
                }
                Ok(id)
            },
            Err(e) => Err(e),
        }
    }

    /// Load a file whose path is already normalized and bind the path to the
    /// handle, together with the modification time observed now. A prior
    /// binding whose recorded timestamp matches the current one is kept: the
    /// same handle is returned and nothing is reloaded. Otherwise a fresh
    /// handle is minted and the binding superseded; the old handle stays
    /// retrievable.
    fn add_file_normalized(&mut self, path: String) -> (r: Result<codespan::FileId, String>)
        requires
            old(self).wf(),
            old(self).store().len() < 0xffff_ffff,
        ensures
            final(self).wf(),
            final(self).entries() == old(self).entries(),
            match r {
                Ok(id) => final(self).valid_id(id) && final(self).names().contains_key(path@)
                    && final(self).names()[path@].id == id && (final(self).load_hit(
                    old(self),
                    id,
                    path@,
                ) || final(self).loaded_fresh_named(old(self), id, path@)),
                Err(_) => final(self).same_maps(old(self)),
            },
            final(self).filesystem() == old(self).filesystem(),
            old(self).filesystem().model().contains_key(path@) && old(self).names().contains_key(
                path@,
            ) && old(self).names()[path@].timestamp == Some(
                old(self).filesystem().model()[path@].1,
            ) ==> r == Ok::<codespan::FileId, String>(old(self).names()[path@].id) && *final(self)
                == *old(self),
            old(self).filesystem().model().contains_key(path@) && !old(self).names().contains_key(path@) ==> (r matches Ok(id) && file_index(id) == old(self).store().len() && final(self).store() == old(self).store().push(
                (path@, old(self).filesystem().model()[path@].0),
            ) && final(self).names() == old(self).names().insert(
                path@,
                NameIdEntry { id, timestamp: Some(old(self).filesystem().model()[path@].1) },
            )),
            old(self).filesystem().model().contains_key(path@) && old(self).names().contains_key(
                path@,
            ) && old(self).names()[path@].timestamp != Some(
                old(self).filesystem().model()[path@].1,
            ) ==> (r matches Ok(id) && file_index(id) == old(self).store().len() && final(self).store() == old(self).store().push(
                (path@, old(self).filesystem().model()[path@].0),
            ) && final(self).names() == old(self).names().insert(
                path@,
                NameIdEntry { id, timestamp: Some(old(self).filesystem().model()[path@].1) },
            )),
    {
        let ts = match self.fs.timestamp(&path) {
            Ok(t) => t,
            Err(e) => {
                return Err(e);
            },
        };
        if let Some(i) = self.lookup_name(&path) {
            let entry = self.file_ids[i].1;
            if let Some(t0) = entry.timestamp {
                if t0 == ts {
                    return Ok(entry.id);
                }
            }
        }
        let id = self.load_file(path.clone())?;
        self.register(path, NameIdEntry { id, timestamp: Some(ts) });
        Ok(id)
    }

    /// Load a file, record its modification time and bind its canonical path
    /// to the handle. If the path cannot be canonicalized the file is still
    /// loaded and a handle returned, but no name-index entry is created.
    pub fn add_file(&mut self, path: String) -> (r: Result<codespan::FileId, String>)
        requires
            old(self).wf(),
            old(self).store().len() < 0xffff_ffff,
        ensures
            final(self).wf(),
            final(self).entries() == old(self).entries(),
            match r {
                Ok(id) => final(self).valid_id(id) && ((exists|p: Seq<char>|
                    final(self).load_hit(old(self), id, p)) || (exists|p: Seq<char>|
                    final(self).loaded_fresh_named(old(self), id, p)) || (final(self).loaded_fresh(
                    old(self),
                    id,
                    path@,
                ) && final(self).names() == old(self).names())),
                Err(_) => final(self).same_maps(old(self)),
            },
            final(self).filesystem() == old(self).filesystem(),
            old(self).filesystem().model().contains_key(path@) && old(self).names().contains_key(
                path@,
            ) && old(self).names()[path@].timestamp == Some(
                old(self).filesystem().model()[path@].1,
            ) ==> r == Ok::<codespan::FileId, String>(old(self).names()[path@].id) && *final(self)
                == *old(self),
            old(self).filesystem().model().contains_key(path@) && !old(self).names().contains_key(
                path@,
            ) ==> (r matches Ok(id) && file_index(id) == old(self).store().len() && final(self).store() == old(self).store().push(
                (path@, old(self).filesystem().model()[path@].0),
            ) && final(self).names() == old(self).names().insert(
                path@,
                NameIdEntry { id, timestamp: Some(old(self).filesystem().model()[path@].1) },
            )),
            old(self).filesystem().model().contains_key(path@) && old(self).names().contains_key(
                path@,
            ) && old(self).names()[path@].timestamp != Some(
                old(self).filesystem().model()[path@].1,
            ) ==> (r matches Ok(id) && file_index(id) == old(self).store().len() && final(self).store() == old(self).store().push(
                (path@, old(self).filesystem().model()[path@].0),
            ) && final(self).names() == old(self).names().insert(
                path@,
                NameIdEntry { id, timestamp: Some(old(self).filesystem().model()[path@].1) },
            )),
    {
        match self.fs.canonicalize(&path) {
            Some(p) => self.add_file_normalized(p),
            None => self.load_file(path),
        }
    }

    /// Store in-memory content under an arbitrary name, superseding any prior
    /// binding for that name; the entry carries no timestamp.
    pub fn add_string(&mut self, source_name: String, s: String) -> (id: codespan::FileId)
        requires
            old(self).wf(),
            old(self).store().len() < 0xffff_ffff,
        ensures
            final(self).wf(),
            final(self).entries() == old(self).entries(),
            file_index(id) == old(self).store().len(),
            final(self).store() == old(self).store().push((source_name@, s@)),
            final(self).names() == old(self).names().insert(
                source_name@,
                NameIdEntry { id, timestamp: None },
            ),
    {
        let name_copy = source_name.clone();
        let id = files_add(&mut self.files, source_name, s);
        self.n_files = self.n_files + 1;
        self.register(name_copy, NameIdEntry { id, timestamp: None });
        id
    }

    /// Store content read from an arbitrary source (already turned into a
    /// string) under a name, as `add_string` does.
    pub fn add_source(&mut self, source_name: String, source: String) -> (r: Result<
        codespan::FileId,
        String,
    >)
        requires
            old(self).wf(),
            old(self).store().len() < 0xffff_ffff,
        ensures
            final(self).wf(),
            final(self).entries() == old(self).entries(),
            match r {
                Ok(id) => file_index(id) == old(self).store().len() && final(self).store() == old(self).store().push((source_name@, source@)) && final(self).names() == old(self).names().insert(source_name@, NameIdEntry { id, timestamp: None }),
                Err(_) => false,
            },
    {
        Ok(self.add_string(source_name, source))
    }

    /// Parse a source and create its stage-cache entry at `Parsed`, or do
    /// nothing (`Cached`) if the handle already has an entry — whatever its
    /// stage, the stored term is never recomputed.
    pub fn parse(&mut self, file_id: codespan::FileId) -> (r: Result<CacheOp, ParseError>)
        requires
            old(self).wf(),
            old(self).valid_id(file_id),
        ensures
            final(self).wf(),
            final(self).store() == old(self).store(),
            final(self).names() == old(self).names(),
            forall|k: int|
                #[trigger] old(self).entries().contains_key(k) ==> final(self).entries().contains_key(k) && state_rank(final(self).entries()[k].1) >= state_rank(
                    old(self).entries()[k].1,
                ),
            match r {
                Ok(CacheOp::Cached) => final(self).entries() == old(self).entries() && old(self).entries().contains_key(file_index(file_id)),
                Ok(CacheOp::Done) => !old(self).entries().contains_key(file_index(file_id)) && (
                exists|t: Term|
                    final(self).entries() == old(self).entries().insert(
                        file_index(file_id),
                        (t, EntryState::Parsed),
                    )),
                Err(e) => final(self).entries() == old(self).entries() && !old(self).entries().contains_key(file_index(file_id)) && e.span.src_id == file_id,
            },
    {
        if self.lookup_entry(&file_id).is_some() {
            return Ok(CacheOp::Cached);
        }
        let buf = files_source(&self.files, file_id);
        match parse_source(&file_id, &buf) {
            Ok(t) => {
                self.set_entry(file_id, t, EntryState::Parsed);
                Ok(CacheOp::Done)
            },
            Err(e) => Err(e),
        }
    }

    /// Typecheck an entry against the global environment, with this cache
    /// acting as the import resolver, and advance its stage to
    /// `Typechecked`; a no-op (`Cached`) when the stage is already there or
    /// further. An entry must exist: `NotParsed` otherwise — that is the
    /// stage-precondition violation, never an ordinary error.
    pub fn typecheck(&mut self, file_id: codespan::FileId, global_env: &Environment) -> (r: Result<
        CacheOp,
        CacheError<TypecheckError>,
    >)
        requires
            old(self).wf(),
        ensures
            final(self).wf(),
            final(self).same_maps(old(self)),
            forall|k: int|
                #[trigger] old(self).entries().contains_key(k) ==> final(self).entries().contains_key(k) && state_rank(final(self).entries()[k].1) >= state_rank(
                    old(self).entries()[k].1,
                ),
            match r {
                Ok(CacheOp::Cached) => final(self).entries() == old(self).entries() && old(self).entries().contains_key(file_index(file_id)) && state_rank(
                    old(self).entries()[file_index(file_id)].1,
                ) >= 1,
                Ok(CacheOp::Done) => old(self).entries().contains_key(file_index(file_id)) && old(self).entries()[file_index(file_id)].1 == EntryState::Parsed && spec_typechecks(
                    old(self).entries()[file_index(file_id)].0,
                    names_of(global_env.bindings@),
                ) && final(self).entries() == old(self).entries().insert(
                    file_index(file_id),
                    (old(self).entries()[file_index(file_id)].0, EntryState::Typechecked),
                ),
                Err(CacheError::Error(_)) => final(self).entries() == old(self).entries() && old(self).entries().contains_key(file_index(file_id)) && old(self).entries()[file_index(
                    file_id,
                )].1 == EntryState::Parsed && !spec_typechecks(
                    old(self).entries()[file_index(file_id)].0,
                    names_of(global_env.bindings@),
                ),
                Err(CacheError::NotParsed) => final(self).entries() == old(self).entries() && !old(self).entries().contains_key(file_index(file_id)),
            },
    {
        let i = match self.lookup_entry(&file_id) {
            Some(i) => i,
            None => {
                return Err(CacheError::NotParsed);
            },
        };
        let state = self.terms[i].2;
        if state == EntryState::Typechecked || state == EntryState::Transformed {
            return Ok(CacheOp::Cached);
        }
        let t = clone_term(&self.terms[i].1);
        match type_check(&t, global_env, self) {
            Ok(()) => {
                let _prev = self.update_state(file_id, EntryState::Typechecked);
                Ok(CacheOp::Done)
            },
            Err(e) => Err(CacheError::Error(e)),
        }
    }

    /// Replace the stage of an existing entry, returning the previous stage;
    /// the stored term is kept. This is the raw setter the pipeline advances
    /// stages through — it does not itself enforce monotonicity.
    pub fn update_state(&mut self, file_id: codespan::FileId, new: EntryState) -> (r: Option<
        EntryState,
    >)
        requires
            old(self).wf(),
        ensures
            final(self).wf(),
            final(self).store() == old(self).store(),
            final(self).names() == old(self).names(),
            match r {
                Some(prev) => old(self).entries().contains_key(file_index(file_id)) && prev == old(self).entries()[file_index(file_id)].1 && final(self).entries() == old(self).entries().insert(
                    file_index(file_id),
                    (old(self).entries()[file_index(file_id)].0, new),
                ),
                None => !old(self).entries().contains_key(file_index(file_id)) && final(self).entries() == old(self).entries(),
            },
    {
        match self.lookup_entry(&file_id) {
            Some(i) => {
                let prev = self.terms[i].2;
                let id2 = self.terms[i].0;
                let t = clone_term(&self.terms[i].1);
                proof {
                    lemma_entries_map_update(self.terms@, i as int, (id2, t, new));
                }
                self.terms.set(i, (id2, t, new));
                Some(prev)
            },
            None => None,
        }
    }

    /// Commit every queued import: transform each queued term in turn (which
    /// may queue more first encounters) and insert it at `Transformed`.
    fn drain_pending(&mut self, pending: Vec<PendingImport>) -> (r: Result<(), ImportError>)
        requires
            old(self).wf(),
            forall|j: int|
                0 <= j < pending@.len() ==> old(self).valid_id((#[trigger] pending@[j]).0),
            forall|j: int|
                0 <= j < pending@.len() ==> !old(self).entries().contains_key(
                    file_index((#[trigger] pending@[j]).0),
                ),
            forall|j1: int, j2: int|
                0 <= j1 < j2 < pending@.len() ==> file_index((#[trigger] pending@[j1]).0)
                    != file_index((#[trigger] pending@[j2]).0),
        ensures
            final(self).wf(),
            final(self).preserves(old(self)),
            forall|k: int|
                #[trigger] old(self).entries().contains_key(k) ==> final(self).entries().contains_key(k) && final(self).entries()[k] == old(self).entries()[k],
            forall|k: int|
                #[trigger] final(self).entries().contains_key(k) && !old(self).entries().contains_key(k) ==> final(self).entries()[k].1
                    == EntryState::Transformed && no_imports(final(self).entries()[k].0),
            r is Ok ==> forall|j: int|
                0 <= j < pending@.len() ==> final(self).entries().contains_key(
                    file_index((#[trigger] pending@[j]).0),
                ),
            pending@.len() == 0 ==> r is Ok && *final(self) == *old(self),
    {
        let mut queue = pending;
        if queue.len() == 0 {
            proof {
                lemma_prefix_refl(self.store());
            }
            return Ok(());
        }
        proof {
            lemma_prefix_refl(self.store());
        }
        while queue.len() > 0
            invariant
                pending@.len() > 0,
                self.wf(),
                self.preserves(old(self)),
                forall|k: int|
                    #[trigger] old(self).entries().contains_key(k) ==> self.entries().contains_key(
                        k,
                    ) && self.entries()[k] == old(self).entries()[k],
                forall|k: int|
                    #[trigger] self.entries().contains_key(k) && !old(self).entries().contains_key(k) ==> self.entries()[k].1 == EntryState::Transformed
                        && no_imports(self.entries()[k].0),
                forall|j: int|
                    0 <= j < queue@.len() ==> self.valid_id((#[trigger] queue@[j]).0),
                forall|j: int|
                    0 <= j < queue@.len() ==> !self.entries().contains_key(
                        file_index((#[trigger] queue@[j]).0),
                    ),
                forall|j1: int, j2: int|
                    0 <= j1 < j2 < queue@.len() ==> file_index((#[trigger] queue@[j1]).0)
                        != file_index((#[trigger] queue@[j2]).0),
                forall|j: int|
                    0 <= j < pending@.len() ==> self.entries().contains_key(
                        file_index((#[trigger] pending@[j]).0),
                    ) || exists|j2: int|
                        0 <= j2 < queue@.len() && queue@[j2] == pending@[j],
            decreases 0xffff_ffff - self.store().len() + queue@.len(),
        {
            let ghost qentry = queue@;
            let item = queue.pop().unwrap();
            let ghost cpre = *self;
            let ghost qpre = queue@;
            proof {
                assert(qentry =~= qpre.push(item));
            }
            let (id, term, parent_path) = item;
            let res = resolve_imports(self, &mut queue, term, &parent_path);
            proof {
                lemma_preserves_trans(old(self), &cpre, self);
                assert(qentry[qentry.len() - 1] == item);
                assert(!cpre.entries().contains_key(file_index(id)));
                assert(self.entries() == cpre.entries());
            }
            match res {
                Ok(t2) => {
                    self.set_entry(id, t2, EntryState::Transformed);
                    proof {
                        assert forall|k: int| #[trigger] old(self).entries().contains_key(
                            k,
                        ) implies self.entries().contains_key(k) && self.entries()[k] == old(self).entries()[k] by {
                            assert(cpre.entries().contains_key(k) && cpre.entries()[k] == old(self).entries()[k]);
                            assert(k != file_index(id));
                        }
                        lemma_entries_dom(&cpre);
                        assert forall|j: int|
                            0 <= j < queue@.len() implies !self.entries().contains_key(
                            file_index((#[trigger] queue@[j]).0),
                        ) by {
                            if j < qpre.len() {
                                assert(qentry[j] == queue@[j]);
                                assert(!cpre.entries().contains_key(
                                    file_index(qentry[j].0),
                                ));
                                assert(file_index(qentry[j].0) != file_index(
                                    qentry[qentry.len() - 1].0,
                                ));
                            } else {
                                assert(file_index(queue@[j].0) >= cpre.store().len());
                            }
                        }
                        assert forall|j: int|
                            0 <= j < pending@.len() && !self.entries().contains_key(
                                file_index((#[trigger] pending@[j]).0),
                            ) implies exists|j2: int|
                            0 <= j2 < queue@.len() && queue@[j2] == pending@[j] by {
                            if !cpre.entries().contains_key(file_index(pending@[j].0)) {
                                if exists|j2: int|
                                    0 <= j2 < qentry.len() && qentry[j2] == pending@[j] {
                                    let j2 = choose|j2: int|
                                        0 <= j2 < qentry.len() && qentry[j2] == pending@[j];
                                    if j2 < qpre.len() {
                                        assert(queue@[j2] == qpre[j2]);
                                        assert(queue@[j2] == pending@[j]);
                                    } else {
                                        assert(qentry[j2] == item);
                                        assert(self.entries().contains_key(
                                            file_index(pending@[j].0),
                                        ));
                                    }
                                }
                            }
                        }
                    }
                },
                Err(e) => {
                    return Err(e);
                },
            }
        }
        Ok(())
    }

    /// Apply the transform pass to an entry and advance it to `Transformed`
    /// (committing every transitively imported file along the way), or do
    /// nothing if it is already there. An entry must exist: `NotParsed`
    /// otherwise.
    pub fn transform(&mut self, file_id: codespan::FileId) -> (r: Result<
        CacheOp,
        CacheError<ImportError>,
    >)
        requires
            old(self).wf(),
        ensures
            final(self).wf(),
            final(self).preserves(old(self)),
            forall|k: int|
                #[trigger] old(self).entries().contains_key(k) ==> final(self).entries().contains_key(k) && state_rank(final(self).entries()[k].1) >= state_rank(
                    old(self).entries()[k].1,
                ),
            match r {
                Ok(CacheOp::Cached) => final(self).same_maps(old(self)) && final(self).entries()
                    == old(self).entries() && old(self).entries().contains_key(
                    file_index(file_id),
                ) && old(self).entries()[file_index(file_id)].1 == EntryState::Transformed,
                Ok(CacheOp::Done) => old(self).entries().contains_key(file_index(file_id)) && old(self).entries()[file_index(file_id)].1 != EntryState::Transformed && final(self).entries().contains_key(file_index(file_id)) && final(self).entries()[file_index(
                    file_id,
                )].1 == EntryState::Transformed && no_imports(
                    final(self).entries()[file_index(file_id)].0,
                ) && resolves_to(
                    old(self).entries()[file_index(file_id)].0,
                    final(self).entries()[file_index(file_id)].0,
                ) && (forall|k: int|
                    old(self).entries().contains_key(k) && k != file_index(file_id)
                        ==> final(self).entries()[k] == old(self).entries()[k]),
                Err(CacheError::Error(_)) => old(self).entries().contains_key(file_index(file_id))
                    && old(self).entries()[file_index(file_id)].1 != EntryState::Transformed && (
                final(self).entries()[file_index(file_id)] == old(self).entries()[file_index(
                    file_id,
                )] || (final(self).entries().contains_key(file_index(file_id)) && final(self).entries()[file_index(file_id)].1 == EntryState::Transformed && resolves_to(
                    old(self).entries()[file_index(file_id)].0,
                    final(self).entries()[file_index(file_id)].0,
                ))) && (forall|k: int|
                    old(self).entries().contains_key(k) && k != file_index(file_id) ==> final(self).entries()[k] == old(self).entries()[k]),
                Err(CacheError::NotParsed) => final(self).same_maps(old(self)) && final(self).entries() == old(self).entries() && !old(self).entries().contains_key(
                    file_index(file_id),
                ),
            },
            old(self).entries().contains_key(file_index(file_id)) && old(self).entries()[file_index(file_id)].1 != EntryState::Transformed && no_imports(
                old(self).entries()[file_index(file_id)].0,
            ) ==> r == Ok::<CacheOp, CacheError<ImportError>>(CacheOp::Done),
    {
        proof {
            lemma_prefix_refl(self.store());
        }
        let i = match self.lookup_entry(&file_id) {
            Some(i) => i,
            None => {
                return Err(CacheError::NotParsed);
            },
        };
        let state = self.terms[i].2;
        if state == EntryState::Transformed {
            return Ok(CacheOp::Cached);
        }
        let t = clone_term(&self.terms[i].1);
        let parent_name = files_name(&self.files, file_id);
        let mut pending: Vec<PendingImport> = Vec::new();
        let ghost c0 = *self;
        let res = resolve_imports(self, &mut pending, t, &parent_name);
        let t2 = match res {
            Ok(t2) => t2,
            Err(e) => {
                return Err(CacheError::Error(e));
            },
        };
        self.set_entry(file_id, t2, EntryState::Transformed);
        let ghost c1 = *self;
        proof {
            lemma_entries_dom(old(self));
            assert forall|j: int| 0 <= j < pending@.len() implies !self.entries().contains_key(
                file_index((#[trigger] pending@[j]).0),
            ) by {
                assert(file_index(pending@[j].0) >= old(self).store().len());
            }
            lemma_prefix_refl(old(self).store());
            assert(c1.preserves(old(self)));
        }
        match self.drain_pending(pending) {
            Ok(()) => {
                proof {
                    lemma_preserves_trans(old(self), &c1, self);
                    lemma_commit_preserved(old(self), &c1, self, file_index(file_id));
                }
                Ok(CacheOp::Done)
            },
            Err(e) => {
                proof {
                    lemma_preserves_trans(old(self), &c1, self);
                    lemma_commit_preserved(old(self), &c1, self, file_index(file_id));
                }
                Err(CacheError::Error(e))
            },
        }
    }

    /// Transform only the fields of a record-shaped entry, leaving the
    /// record node itself untouched — used for a standard-library-like root
    /// whose wrapping term must not be transformed. Calling it on an entry
    /// of any other shape is a programming-invariant violation, fatal by
    /// design, so the precondition rules it out.
    pub fn transform_inner(&mut self, file_id: codespan::FileId) -> (r: Result<
        CacheOp,
        CacheError<ImportError>,
    >)
        requires
            old(self).wf(),
            old(self).entries().contains_key(file_index(file_id)) && old(self).entries()[file_index(
                file_id,
            )].1 != EntryState::Transformed ==> old(self).entries()[file_index(file_id)].0
                is Record,
        ensures
            final(self).wf(),
            final(self).preserves(old(self)),
            forall|k: int|
                #[trigger] old(self).entries().contains_key(k) ==> final(self).entries().contains_key(k) && state_rank(final(self).entries()[k].1) >= state_rank(
                    old(self).entries()[k].1,
                ),
            match r {
                Ok(CacheOp::Cached) => final(self).same_maps(old(self)) && final(self).entries()
                    == old(self).entries() && old(self).entries().contains_key(
                    file_index(file_id),
                ) && old(self).entries()[file_index(file_id)].1 == EntryState::Transformed,
                Ok(CacheOp::Done) => old(self).entries().contains_key(file_index(file_id)) && old(self).entries()[file_index(file_id)].1 != EntryState::Transformed && final(self).entries().contains_key(file_index(file_id)) && final(self).entries()[file_index(
                    file_id,
                )].1 == EntryState::Transformed && no_imports(
                    final(self).entries()[file_index(file_id)].0,
                ) && final(self).entries()[file_index(file_id)].0 is Record && resolves_to(
                    old(self).entries()[file_index(file_id)].0,
                    final(self).entries()[file_index(file_id)].0,
                ) && (forall|k: int|
                    old(self).entries().contains_key(k) && k != file_index(file_id)
                        ==> final(self).entries()[k] == old(self).entries()[k]),
                Err(CacheError::Error(_)) => old(self).entries().contains_key(file_index(file_id))
                    && old(self).entries()[file_index(file_id)].1 != EntryState::Transformed && (
                final(self).entries()[file_index(file_id)] == old(self).entries()[file_index(
                    file_id,
                )] || (final(self).entries().contains_key(file_index(file_id)) && final(self).entries()[file_index(file_id)].1 == EntryState::Transformed && resolves_to(
                    old(self).entries()[file_index(file_id)].0,
                    final(self).entries()[file_index(file_id)].0,
                ))) && (forall|k: int|
                    old(self).entries().contains_key(k) && k != file_index(file_id) ==> final(self).entries()[k] == old(self).entries()[k]),
                Err(CacheError::NotParsed) => final(self).same_maps(old(self)) && final(self).entries() == old(self).entries() && !old(self).entries().contains_key(
                    file_index(file_id),
                ),
            },
            old(self).entries().contains_key(file_index(file_id)) && old(self).entries()[file_index(file_id)].1 != EntryState::Transformed && no_imports(
                old(self).entries()[file_index(file_id)].0,
            ) ==> r == Ok::<CacheOp, CacheError<ImportError>>(CacheOp::Done),
    {
        proof {
            lemma_prefix_refl(self.store());
        }
        let i = match self.lookup_entry(&file_id) {
            Some(i) => i,
            None => {
                return Err(CacheError::NotParsed);
            },
        };
        let state = self.terms[i].2;
        if state == EntryState::Transformed {
            return Ok(CacheOp::Cached);
        }
        let t = clone_term(&self.terms[i].1);
        let parent_name = files_name(&self.files, file_id);
        let mut pending: Vec<PendingImport> = Vec::new();
        let fields = match t {
            Term::Record(fields) => *fields,
            _ => unreached(),
        };
        let res = resolve_imports_fields(self, &mut pending, fields, &parent_name);
        let fields2 = match res {
            Ok(f2) => f2,
            Err(e) => {
                return Err(CacheError::Error(e));
            },
        };
        self.set_entry(file_id, Term::Record(Box::new(fields2)), EntryState::Transformed);
        let ghost c1 = *self;
        proof {
            lemma_entries_dom(old(self));
            assert forall|j: int| 0 <= j < pending@.len() implies !self.entries().contains_key(
                file_index((#[trigger] pending@[j]).0),
            ) by {
                assert(file_index(pending@[j].0) >= old(self).store().len());
            }
            lemma_prefix_refl(old(self).store());
            assert(c1.preserves(old(self)));
        }
        match self.drain_pending(pending) {
            Ok(()) => {
                proof {
                    lemma_preserves_trans(old(self), &c1, self);
                    lemma_commit_preserved(old(self), &c1, self, file_index(file_id));
                }
                Ok(CacheOp::Done)
            },
            Err(e) => {
                proof {
                    lemma_preserves_trans(old(self), &c1, self);
                    lemma_commit_preserved(old(self), &c1, self, file_index(file_id));
                }
                Err(CacheError::Error(e))
            },
        }
    }

    /// Prepare a source for evaluation: parse, typecheck and transform it,
    /// each step tolerant of already-completed stages. `Done` when any stage
    /// performed work, `Cached` only when all three were already complete.
    /// The stage-precondition violation cannot occur here — `prepare` parses
    /// first, and the proof of this function shows the `NotParsed` branches
    /// of typecheck and transform unreachable.
    pub fn prepare(&mut self, file_id: codespan::FileId, global_env: &Environment) -> (r: Result<
        CacheOp,
        Error,
    >)
        requires
            old(self).wf(),
            old(self).valid_id(file_id),
        ensures
            final(self).wf(),
            final(self).preserves(old(self)),
            forall|k: int|
                #[trigger] old(self).entries().contains_key(k) ==> final(self).entries().contains_key(k) && state_rank(final(self).entries()[k].1) >= state_rank(
                    old(self).entries()[k].1,
                ),
            match r {
                Ok(op) => final(self).entries().contains_key(file_index(file_id)) && final(self).entries()[file_index(file_id)].1 == EntryState::Transformed && (op
                    == CacheOp::Cached ==> final(self).same_maps(old(self)) && final(self).entries()
                    == old(self).entries() && old(self).entries().contains_key(file_index(file_id))
                    && old(self).entries()[file_index(file_id)].1 == EntryState::Transformed),
                Err(e) => match e {
                    Error::Parse(pe) => final(self).same_maps(old(self)) && final(self).entries()
                        == old(self).entries() && !old(self).entries().contains_key(
                        file_index(file_id),
                    ) && pe.span.src_id == file_id,
                    Error::Typecheck(_) => final(self).entries().contains_key(
                        file_index(file_id),
                    ) && final(self).entries()[file_index(file_id)].1 == EntryState::Parsed
                        && !spec_typechecks(
                        final(self).entries()[file_index(file_id)].0,
                        names_of(global_env.bindings@),
                    ),
                    Error::Import(_) => !(old(self).entries().contains_key(file_index(file_id))
                        && old(self).entries()[file_index(file_id)].1 == EntryState::Transformed),
                    Error::Io(_) => false,
                },
            },
            old(self).entries().contains_key(file_index(file_id)) && old(self).entries()[file_index(file_id)].1 == EntryState::Transformed ==> r == Ok::<CacheOp, Error>(
                CacheOp::Cached,
            ) && final(self).same_maps(old(self)) && final(self).entries() == old(self).entries(),
    {
        proof {
            lemma_prefix_refl(self.store());
        }
        let mut result = CacheOp::Cached;
        let ghost c0 = *self;
        match self.parse(file_id) {
            Ok(CacheOp::Done) => {
                result = CacheOp::Done;
            },
            Ok(CacheOp::Cached) => {},
            Err(e) => {
                return Err(Error::Parse(e));
            },
        }
        let ghost c1 = *self;
        let tc_res = match self.typecheck(file_id, global_env) {
            Ok(op) => op,
            Err(cache_err) => {
                let e = cache_err.expect_err(
                    "prepare: expected source to be parsed before typechecking",
                );
                proof {
                    lemma_prefix_refl(self.store());
                    assert forall|k: int| #[trigger] old(self).entries().contains_key(
                        k,
                    ) implies self.entries().contains_key(k) && state_rank(self.entries()[k].1)
                        >= state_rank(old(self).entries()[k].1) by {
                        assert(c1.entries().contains_key(k));
                        assert(c1.entries()[k] == old(self).entries()[k]);
                    }
                }
                return Err(Error::Typecheck(e));
            },
        };
        if tc_res == CacheOp::Done {
            result = CacheOp::Done;
        }
        let ghost c2 = *self;
        let tr_res = match self.transform(file_id) {
            Ok(op) => op,
            Err(cache_err) => {
                let e = cache_err.expect_err(
                    "prepare: expected source to be parsed before transformations",
                );
                proof {
                    lemma_prefix_refl(c2.store());
                    assert(c2.preserves(old(self)));
                    lemma_preserves_trans(old(self), &c2, self);
                    assert forall|k: int| #[trigger] old(self).entries().contains_key(
                        k,
                    ) implies self.entries().contains_key(k) && state_rank(self.entries()[k].1)
                        >= state_rank(old(self).entries()[k].1) by {
                        assert(c1.entries().contains_key(k));
                        assert(c1.entries()[k] == old(self).entries()[k]);
                        assert(c2.entries().contains_key(k));
                        assert(state_rank(c2.entries()[k].1) >= state_rank(c1.entries()[k].1));
                    }
                }
                return Err(Error::Import(e));
            },
        };
        if tr_res == CacheOp::Done {
            result = CacheOp::Done;
        }
        proof {
            lemma_prefix_refl(c2.store());
            assert(c2.preserves(old(self)));
            lemma_preserves_trans(old(self), &c2, self);
            assert forall|k: int| #[trigger] old(self).entries().contains_key(
                k,
            ) implies self.entries().contains_key(k) && state_rank(self.entries()[k].1)
                >= state_rank(old(self).entries()[k].1) by {
                assert(c1.entries().contains_key(k));
                assert(c1.entries()[k] == old(self).entries()[k]);
                assert(c2.entries().contains_key(k));
                assert(state_rank(c2.entries()[k].1) >= state_rank(c1.entries()[k].1));
            }
        }
        Ok(result)
    }

    /// The stage of a handle's entry; `None` means "content loaded, never
    /// parsed".
    pub fn entry_state(&self, file_id: codespan::FileId) -> (r: Option<EntryState>)
        requires
            self.wf(),
        ensures
            match r {
                Some(s) => self.entries().contains_key(file_index(file_id)) && s == self.entries()[
                    file_index(file_id)].1,
                None => !self.entries().contains_key(file_index(file_id)),
            },
    {
        match self.lookup_entry(&file_id) {
            Some(i) => Some(self.terms[i].2),
            None => None,
        }
    }

    /// A fresh clone of a cached term, whatever its stage.
    pub fn get_owned(&self, file_id: codespan::FileId) -> (r: Option<Term>)
        requires
            self.wf(),
        ensures
            match r {
                Some(t) => self.entries().contains_key(file_index(file_id)) && t == self.entries()[
                    file_index(file_id)].0,
                None => !self.entries().contains_key(file_index(file_id)),
            },
    {
        match self.lookup_entry(&file_id) {
            Some(i) => Some(clone_term(&self.terms[i].1)),
            None => None,
        }
    }

    /// The name a source was stored under.
    pub fn name(&self, file_id: codespan::FileId) -> (r: String)
        requires
            self.wf(),
            self.valid_id(file_id),
        ensures
            r@ == self.store()[file_index(file_id)].0,
    {
        files_name(&self.files, file_id)
    }

    /// Direct access to the underlying file database, e.g. for rendering
    /// diagnostics in a host program. Nothing verified calls this, and
    /// nothing enforces restraint on the other side: a caller that mutates
    /// the database through it steps outside the model this cache's
    /// contracts are stated over.
    pub fn files_mut(&mut self) -> &mut codespan::Files<String> {
        &mut self.files
    }

    /// The filesystem capability this cache loads through.
    pub fn fs_mut(&mut self) -> &mut F {
        &mut self.fs
    }

    /// The current handle bound to a name, if any; no loading is triggered.
    pub fn id_of(&self, name: &String) -> (r: Option<codespan::FileId>)
        requires
            self.wf(),
        ensures
            match r {
                Some(id) => self.names().contains_key(name@) && id == self.names()[name@].id,
                None => !self.names().contains_key(name@),
            },
    {
        match self.lookup_name(name) {
            Some(i) => Some(self.file_ids[i].1.id),
            None => None,
        }
    }
}

/// The index of the last '/' in a path, or -1 when there is none.
pub open spec fn last_slash(p: Seq<char>) -> int
    decreases p.len(),
{
    if p.len() == 0 {
        -1
    } else if p.last() == '/' {
        p.len() - 1
    } else {
        last_slash(p.drop_last())
    }
}

/// The directory part of a path: everything before the last '/', empty when
/// the path has no separator.
pub open spec fn spec_dir_of(p: Seq<char>) -> Seq<char> {
    if last_slash(p) < 0 {
        Seq::empty()
    } else {
        p.subrange(0, last_slash(p))
    }
}

/// An import path resolved relative to the directory of its parent file: an
/// absolute path stands alone; otherwise it is appended to the parent's
/// directory.
pub open spec fn spec_with_parent(path: Seq<char>, parent: Option<Seq<char>>) -> Seq<char> {
    let base = match parent {
        Some(p) => spec_dir_of(p),
        None => Seq::empty(),
    };
    if path.len() > 0 && path[0] == '/' {
        path
    } else if base.len() == 0 {
        path
    } else {
        base + seq!['/'] + path
    }
}

proof fn lemma_last_slash(p: Seq<char>)
    ensures
        -1 <= last_slash(p) < p.len(),
        last_slash(p) == -1 ==> forall|j: int| 0 <= j < p.len() ==> p[j] != '/',
        last_slash(p) >= 0 ==> 0 <= last_slash(p) < p.len() && p[last_slash(p)] == '/' && (forall|
            j: int,
        |
            last_slash(p) < j < p.len() ==> p[j] != '/'),
    decreases p.len(),
{
    if p.len() > 0 && p.last() != '/' {
        lemma_last_slash(p.drop_last());
        assert(forall|j: int| 0 <= j < p.len() - 1 ==> p[j] == p.drop_last()[j]);
    }
}

/// Compute the path of an import relative to the directory of its parent.
pub fn with_parent(path: &String, parent: Option<&String>) -> (r: String)
    ensures
        r@ == spec_with_parent(path@, spec_opt_view(parent)),
{
    let ghost gparent = spec_opt_view(parent);
    let path_str = path.as_str();
    let path_len = path_str.unicode_len();
    if path_len > 0 && path_str.get_char(0) == '/' {
        return path.clone();
    }
    let base: String = match parent {
        Some(p) => {
            let ps = p.as_str();
            let n = ps.unicode_len();
            let mut slash: Option<usize> = None;
            let mut i: usize = 0;
            while i < n
                invariant
                    n == ps@.len(),
                    i <= n,
                    match slash {
                        Some(b) => b < i && ps@[b as int] == '/' && forall|j: int|
                            b < j < i ==> ps@[j] != '/',
                        None => forall|j: int| 0 <= j < i ==> ps@[j] != '/',
                    },
                decreases n - i,
            {
                if ps.get_char(i) == '/' {
                    slash = Some(i);
                }
                i = i + 1;
            }
            proof {
                lemma_last_slash(ps@);
            }
            match slash {
                Some(b) => {
                    proof {
                        assert(last_slash(ps@) == b as int) by {
                            let ls = last_slash(ps@);
                            if ls == -1 {
                                assert(ps@[b as int] != '/');
                                assert(false);
                            } else if ls < b as int {
                                assert(b < ps@.len());
                                assert(ps@[b as int] != '/');
                                assert(false);
                            } else if ls > b as int {
                                assert(ps@[ls] == '/');
                                assert(ps@[ls] != '/');
                                assert(false);
                            }
                        }
                    }
                    let r = ps.substring_char(0, b).to_owned();
                    proof {
                        assert(r@ == spec_dir_of(ps@));
                    }
                    r
                },
                None => {
                    proof {
                        assert(last_slash(ps@) == -1) by {
                            if last_slash(ps@) >= 0 {
                                assert(ps@[last_slash(ps@)] == '/');
                            }
                        }
                    }
                    String::new()
                },
            }
        },
        None => String::new(),
    };
    proof {
        assert(base@ == match gparent {
            Some(p) => spec_dir_of(p),
            None => Seq::<char>::empty(),
        });
    }
    if base.as_str().is_empty() {
        return path.clone();
    }
    let mut out = base;
    out.append("/");
    out.append(path.as_str());
    proof {
        reveal_strlit("/");
        assert(out@ =~= spec_with_parent(path@, gparent));
    }
    out
}

/// Normalize a path to the canonical form that identifies it in the name
/// index; `None` when the filesystem cannot canonicalize it (e.g. the path
/// does not exist).
pub fn normalize_path<F: FileSystem>(fs: &F, path: &String) -> Option<String> {
    fs.canonicalize(path)
}

/// The import resolution capability: turn an import path into a handle and,
/// on first encounter, the freshly parsed (not yet transformed) term; commit
/// transformed terms; read back finished ones. Implemented by the cache;
/// the typechecker and the transform pass depend only on this interface, so
/// hosts and tests can supply a resolver of their own.
pub trait ImportResolver {
    /// The resolver's internal consistency.
    spec fn inv(&self) -> bool;

    /// Whether a handle was minted by this resolver.
    spec fn owns(&self, id: codespan::FileId) -> bool;

    /// Resolve an import: a repeat reference yields `FromCache` and the
    /// already-known handle; a first encounter loads and parses the file and
    /// yields `FromFile` with a fresh handle, leaving the term cache alone.
    fn resolve(&mut self, path: &String, parent: Option<&String>, pos: &Option<RawSpan>) -> (r:
        Result<(ResolvedTerm, codespan::FileId), ImportError>)
        requires
            old(self).inv(),
        ensures
            final(self).inv(),
            forall|id: codespan::FileId| old(self).owns(id) ==> final(self).owns(id),
            r matches Ok(p) ==> final(self).owns(p.1);

    /// Commit a fully transformed term for a handle, superseding any prior
    /// entry.
    fn insert(&mut self, file_id: codespan::FileId, term: Term)
        requires
            old(self).inv(),
            old(self).owns(file_id),
        ensures
            final(self).inv(),
            forall|id: codespan::FileId| old(self).owns(id) ==> final(self).owns(id);

    /// A finished (transformed) term, if the handle has one.
    fn get(&self, file_id: codespan::FileId) -> (r: Option<Term>)
        requires
            self.inv();

    /// The handle an import path is currently known under, if any; no I/O.
    fn get_id(&self, path: &String, parent: Option<&String>) -> (r: Option<codespan::FileId>)
        requires
            self.inv();
}

impl<F: FileSystem> Cache<F> {
    /// Resolve an import against this cache: compute the import's identity
    /// (parent-relative join, then canonicalization), answer repeat
    /// references from the name index without I/O, and otherwise load and
    /// parse the file, binding its canonical identity — but leaving the
    /// stage cache untouched: the caller owns transforming and committing
    /// the returned term.
    pub fn resolve_import(&mut self, path: &String, parent: Option<&String>, pos: &Option<
        RawSpan,
    >) -> (r: Result<(ResolvedTerm, codespan::FileId), ImportError>)
        requires
            old(self).wf(),
        ensures
            final(self).wf(),
            final(self).entries() == old(self).entries(),
            final(self).preserves(old(self)),
            match r {
                Ok(p) => final(self).valid_id(p.1) && match p.0 {
                    ResolvedTerm::FromCache() => final(self).same_maps(old(self)) && (exists|
                        k: Seq<char>,
                    |
                        old(self).names().contains_key(k) && p.1 == old(self).names()[k].id),
                    ResolvedTerm::FromFile { term, path: pb } => file_index(p.1) == old(self).store().len() && final(self).store().len() == old(self).store().len() + 1
                        && pb@ == spec_with_parent(path@, spec_opt_view(parent)) && (final(self).names() == old(self).names() || (exists|k: Seq<char>, ts: u64|
                        final(self).names() == old(self).names().insert(
                            k,
                            NameIdEntry { id: p.1, timestamp: Some(ts) },
                        ))),
                },
                Err(e) => match e {
                    ImportError::IOError(_, _, pp) => pp == *pos && final(self).same_maps(
                        old(self),
                    ),
                    ImportError::ParseError(pe, pp) => pp == *pos && final(self).store().len()
                        == old(self).store().len() + 1 && file_index(pe.span.src_id) == old(self).store().len(),
                },
            },
            final(self).filesystem() == old(self).filesystem(),
            old(self).filesystem().model().contains_key(
                spec_with_parent(path@, spec_opt_view(parent)),
            ) && old(self).names().contains_key(spec_with_parent(path@, spec_opt_view(parent)))
                ==> r == Ok::<(ResolvedTerm, codespan::FileId), ImportError>(
                (
                    ResolvedTerm::FromCache(),
                    old(self).names()[spec_with_parent(path@, spec_opt_view(parent))].id,
                ),
            ) && *final(self) == *old(self),
            old(self).filesystem().model().contains_key(
                spec_with_parent(path@, spec_opt_view(parent)),
            ) && !old(self).names().contains_key(spec_with_parent(path@, spec_opt_view(parent)))
                && old(self).store().len() < 0xffff_ffff ==> match r {
                Ok(p) => p.0 is FromFile && file_index(p.1) == old(self).store().len() && final(self).store() == old(self).store().push(
                    (
                        spec_with_parent(path@, spec_opt_view(parent)),
                        old(self).filesystem().model()[spec_with_parent(
                            path@,
                            spec_opt_view(parent),
                        )].0,
                    ),
                ) && final(self).names() == old(self).names().insert(
                    spec_with_parent(path@, spec_opt_view(parent)),
                    NameIdEntry {
                        id: p.1,
                        timestamp: Some(
                            old(self).filesystem().model()[spec_with_parent(
                                path@,
                                spec_opt_view(parent),
                            )].1,
                        ),
                    },
                ),
                Err(e) => e is ParseError,
            },
    {
        proof {
            lemma_prefix_refl(old(self).store());
        }
        let path_buf = with_parent(path, parent);
        let normalized = self.fs.canonicalize(&path_buf);
        if let Some(p) = &normalized {
            if let Some(i) = self.lookup_name(p) {
                let id = self.file_ids[i].1.id;
                proof {
                    assert(old(self).names().contains_key(p@));
                }
                return Ok((ResolvedTerm::FromCache(), id));
            }
        }
        if self.n_files >= 0xffff_ffff {
            return Err(
                ImportError::IOError(path.clone(), "too many sources".to_owned(), *pos),
            );
        }
        let load_res = match normalized {
            Some(p) => self.add_file_normalized(p),
            None => self.load_file(path_buf.clone()),
        };
        let file_id = match load_res {
            Ok(id) => id,
            Err(msg) => {
                return Err(ImportError::IOError(path.clone(), msg, *pos));
            },
        };
        proof {
            assert(exists|content: Seq<char>, nm: Seq<char>|
                self.store() == old(self).store().push((nm, content)));
            lemma_prefix_push(old(self).store(), self.store());
        }
        let buf = files_source(&self.files, file_id);
        match parse_source(&file_id, &buf) {
            Ok(term) => Ok((ResolvedTerm::FromFile { term, path: path_buf }, file_id)),
            Err(e) => Err(ImportError::ParseError(e, *pos)),
        }
    }

    /// Commit a transformed term: the handle's entry is set to
    /// (`term`, `Transformed`), superseding any prior entry.
    pub fn insert(&mut self, file_id: codespan::FileId, term: Term)
        requires
            old(self).wf(),
            old(self).valid_id(file_id),
        ensures
            final(self).wf(),
            final(self).same_maps(old(self)),
            final(self).entries() == old(self).entries().insert(
                file_index(file_id),
                (term, EntryState::Transformed),
            ),
            forall|k: int|
                #[trigger] old(self).entries().contains_key(k) ==> final(self).entries().contains_key(k) && state_rank(final(self).entries()[k].1) >= state_rank(
                    old(self).entries()[k].1,
                ),
    {
        self.set_entry(file_id, term, EntryState::Transformed);
    }

    /// The read path for finished imports: the cached term, only once its
    /// stage is `Transformed`. A non-`Transformed` entry yields `None` — an
    /// import must not be dereferenced before the whole transform phase is
    /// over.
    pub fn get(&self, file_id: codespan::FileId) -> (r: Option<Term>)
        requires
            self.wf(),
        ensures
            match r {
                Some(t) => self.entries().contains_key(file_index(file_id)) && self.entries()[
                    file_index(file_id)] == (t, EntryState::Transformed),
                None => !self.entries().contains_key(file_index(file_id)) || self.entries()[
                    file_index(file_id)].1 != EntryState::Transformed,
            },
    {
        match self.lookup_entry(&file_id) {
            Some(i) => {
                if self.terms[i].2 == EntryState::Transformed {
                    Some(clone_term(&self.terms[i].1))
                } else {
                    None
                }
            },
            None => None,
        }
    }

    /// Pure identity query: the handle an import path is currently bound to,
    /// without loading anything.
    pub fn get_id(&self, path: &String, parent: Option<&String>) -> (r: Option<codespan::FileId>)
        requires
            self.wf(),
        ensures
            match r {
                Some(id) => exists|k: Seq<char>|
                    self.names().contains_key(k) && id == self.names()[k].id,
                None => true,
            },
            self.filesystem().model().contains_key(
                spec_with_parent(path@, spec_opt_view(parent)),
            ) ==> match r {
                Some(id) => self.names().contains_key(
                    spec_with_parent(path@, spec_opt_view(parent)),
                ) && id == self.names()[spec_with_parent(path@, spec_opt_view(parent))].id,
                None => !self.names().contains_key(spec_with_parent(path@, spec_opt_view(parent))),
            },
    {
        let path_buf = with_parent(path, parent);
        match self.fs.canonicalize(&path_buf) {
            Some(p) => {
                match self.lookup_name(&p) {
                    Some(i) => Some(self.file_ids[i].1.id),
                    None => None,
                }
            },
            None => None,
        }
    }
}

/// The view of an optional borrowed path.
pub open spec fn spec_opt_view(parent: Option<&String>) -> Option<Seq<char>> {
    match parent {
        Some(p) => Some(p@),
        None => None,
    }
}

impl<F: FileSystem> ImportResolver for Cache<F> {
    open spec fn inv(&self) -> bool {
        self.wf()
    }

    open spec fn owns(&self, id: codespan::FileId) -> bool {
        self.valid_id(id)
    }

    fn resolve(&mut self, path: &String, parent: Option<&String>, pos: &Option<RawSpan>) -> (r:
        Result<(ResolvedTerm, codespan::FileId), ImportError>) {
        self.resolve_import(path, parent, pos)
    }

    fn insert(&mut self, file_id: codespan::FileId, term: Term) {
        Cache::insert(self, file_id, term)
    }

    fn get(&self, file_id: codespan::FileId) -> (r: Option<Term>) {
        Cache::get(self, file_id)
    }

    fn get_id(&self, path: &String, parent: Option<&String>) -> (r: Option<codespan::FileId>) {
        Cache::get_id(self, path, parent)
    }
}

pub(crate) proof fn lemma_prefix_refl(s: Seq<(Seq<char>, Seq<char>)>)
    ensures
        s.is_prefix_of(s),
{
    assert(s =~= s.subrange(0, s.len() as int));
}

pub(crate) proof fn lemma_prefix_push(s: Seq<(Seq<char>, Seq<char>)>, t: Seq<(Seq<char>, Seq<char>)>)
    requires
        exists|content: Seq<char>, nm: Seq<char>| t == s.push((nm, content)),
    ensures
        s.is_prefix_of(t),
{
    assert(s =~= t.subrange(0, s.len() as int));
}

proof fn lemma_entries_map_dom(s: Seq<(codespan::FileId, Term, EntryState)>, n: int)
    requires
        forall|i: int| 0 <= i < s.len() ==> 0 <= file_index((#[trigger] s[i]).0) < n,
    ensures
        forall|k: int| #[trigger] entries_map(s).contains_key(k) ==> 0 <= k < n,
    decreases s.len(),
{
    if s.len() > 0 {
        assert(forall|i: int|
            0 <= i < s.drop_last().len() ==> (#[trigger] s.drop_last()[i]) == s[i]);
        lemma_entries_map_dom(s.drop_last(), n);
        assert forall|k: int| entries_map(s).contains_key(k) implies 0 <= k < n by {
            if k == file_index(s.last().0) {
                assert(0 <= file_index(s[s.len() - 1].0) < n);
            } else {
                assert(entries_map(s.drop_last()).contains_key(k));
            }
        }
    }
}

/// With a well-formed cache, every stage-cache key addresses a store slot.
pub(crate) proof fn lemma_entries_dom<F: FileSystem>(c: &Cache<F>)
    requires
        c.wf(),
    ensures
        forall|k: int| #[trigger] c.entries().contains_key(k) ==> 0 <= k < c.store().len(),
{
    lemma_entries_map_dom(c.terms@, c.store().len() as int);
}

/// After the root's entry was committed at `Transformed` (state `mid`) and
/// the queue drained (state `now`, which keeps every entry of `mid`), every
/// entry of `prior` other than the root's is untouched, the root's entry is
/// `mid`'s, and every prior stage has only advanced.
proof fn lemma_commit_preserved<F: FileSystem>(
    prior: &Cache<F>,
    mid: &Cache<F>,
    now: &Cache<F>,
    idx: int,
)
    requires
        mid.entries().contains_key(idx),
        mid.entries()[idx].1 == EntryState::Transformed,
        forall|k: int|
            #[trigger] prior.entries().contains_key(k) && k != idx ==> mid.entries().contains_key(
                k,
            ) && mid.entries()[k] == prior.entries()[k],
        forall|k: int|
            #[trigger] mid.entries().contains_key(k) ==> now.entries().contains_key(k)
                && now.entries()[k] == mid.entries()[k],
    ensures
        now.entries().contains_key(idx),
        now.entries()[idx] == mid.entries()[idx],
        forall|k: int|
            #[trigger] prior.entries().contains_key(k) && k != idx ==> now.entries().contains_key(
                k,
            ) && now.entries()[k] == prior.entries()[k],
        forall|k: int|
            #[trigger] prior.entries().contains_key(k) ==> now.entries().contains_key(k)
                && state_rank(now.entries()[k].1) >= state_rank(prior.entries()[k].1),
{
    assert forall|k: int| prior.entries().contains_key(k) implies now.entries().contains_key(k)
        && state_rank(now.entries()[k].1) >= state_rank(prior.entries()[k].1) by {
        if k == idx {
            assert(state_rank(prior.entries()[k].1) <= 2);
        } else {
            assert(mid.entries().contains_key(k));
        }
    }
    assert forall|k: int| prior.entries().contains_key(k) && k != idx implies now.entries().contains_key(k) && now.entries()[k] == prior.entries()[k] by {
        assert(mid.entries().contains_key(k));
    }
}

pub(crate) proof fn lemma_preserves_trans<F: FileSystem>(a: &Cache<F>, b: &Cache<F>, c: &Cache<F>)
    requires
        b.preserves(a),
        c.preserves(b),
    ensures
        c.preserves(a),
{
    lemma_prefix_trans(a.store(), b.store(), c.store());
    assert forall|k: Seq<char>| a.names().contains_key(k) implies c.names().contains_key(k)
        && c.names()[k] == a.names()[k] by {
        assert(b.names().contains_key(k) && b.names()[k] == a.names()[k]);
    }
}

pub(crate) proof fn lemma_prefix_trans(
    a: Seq<(Seq<char>, Seq<char>)>,
    b: Seq<(Seq<char>, Seq<char>)>,
    c: Seq<(Seq<char>, Seq<char>)>,
)
    requires
        a.is_prefix_of(b),
        b.is_prefix_of(c),
    ensures
        a.is_prefix_of(c),
{
    assert(a =~= c.subrange(0, a.len() as int));
}

proof fn lemma_names_map_at_all(s: Seq<(String, NameIdEntry)>)
    requires
        unique_names(s),
    ensures
        forall|i: int|
            0 <= i < s.len() ==> names_map(s).contains_key((#[trigger] s[i]).0@),
{
    assert forall|i: int| 0 <= i < s.len() implies names_map(s).contains_key(
        (#[trigger] s[i]).0@,
    ) by {
        lemma_names_map_at(s, i);
    }
}

proof fn lemma_entries_map_at_all(s: Seq<(codespan::FileId, Term, EntryState)>)
    requires
        unique_entries(s),
    ensures
        forall|i: int|
            0 <= i < s.len() ==> entries_map(s).contains_key(file_index((#[trigger] s[i]).0)),
{
    assert forall|i: int| 0 <= i < s.len() implies entries_map(s).contains_key(
        file_index((#[trigger] s[i]).0),
    ) by {
        lemma_entries_map_at(s, i);
    }
}

} // verus!
