//! The transform pass the pipeline drives: import resolution. Walking a term
//! replaces every `import "path"` with a resolved handle; a first encounter
//! hands back the freshly parsed term, which is queued for the driver to
//! transform and commit in its turn — recursion over files is deferred
//! through that queue, which is what keeps cyclic imports from recursing
//! forever.

use vstd::prelude::*;
use crate::cache::{lemma_prefix_trans, Cache, ResolvedTerm};
use crate::error::ImportError;
use crate::fs::FileSystem;
use crate::term::{fields_resolve_to, no_imports, no_imports_fields, resolves_to, FieldList, Term};

verus! {

/// A file whose freshly parsed term still has to be transformed and
/// committed: (handle, term, the import path it was loaded from).
pub type PendingImport = (codespan::FileId, Term, String);

/// What one walk of the transform pass guarantees of the cache and the
/// queue: the stage cache is untouched, names and store only grow, the queue
/// is only appended to, and every queued handle is fresh — its index lies in
/// the window the store grew by, in increasing order.
pub open spec fn walk_post<F: FileSystem>(
    prior: &Cache<F>,
    now: &Cache<F>,
    qprior: Seq<PendingImport>,
    qnow: Seq<PendingImport>,
) -> bool {
    &&& now.wf()
    &&& now.entries() == prior.entries()
    &&& now.preserves(prior)
    &&& qnow.len() >= qprior.len()
    &&& forall|j: int| 0 <= j < qprior.len() ==> qnow[j] == qprior[j]
    &&& forall|j: int|
        qprior.len() <= j < qnow.len() ==> prior.store().len() <= crate::store::file_index(
            (#[trigger] qnow[j]).0,
        ) < now.store().len()
    &&& forall|j1: int, j2: int|
        qprior.len() <= j1 < j2 < qnow.len() ==> crate::store::file_index((#[trigger] qnow[j1]).0)
            < crate::store::file_index((#[trigger] qnow[j2]).0)
    &&& qnow.len() - qprior.len() <= now.store().len() - prior.store().len()
}

proof fn lemma_walk_post_trans<F: FileSystem>(
    c1: &Cache<F>,
    c2: &Cache<F>,
    c3: &Cache<F>,
    q1: Seq<PendingImport>,
    q2: Seq<PendingImport>,
    q3: Seq<PendingImport>,
)
    requires
        walk_post(c1, c2, q1, q2),
        walk_post(c2, c3, q2, q3),
    ensures
        walk_post(c1, c3, q1, q3),
{
    lemma_prefix_trans(c1.store(), c2.store(), c3.store());
    assert(c3.wf());
    assert(c3.entries() == c1.entries());
    assert(c2.preserves(c1));
    assert(c3.preserves(c2));
    assert forall|k: Seq<char>| c1.names().contains_key(k) implies c3.names().contains_key(k)
        && c3.names()[k] == c1.names()[k] by {
        assert(c2.names().contains_key(k) && c2.names()[k] == c1.names()[k]);
    }
    assert(c3.preserves(c1));
    assert(q3.len() >= q1.len());
    assert(forall|j: int| 0 <= j < q1.len() ==> q3[j] == q1[j]);
    assert(forall|j: int|
        q1.len() <= j < q3.len() ==> c1.store().len() <= crate::store::file_index(
            (#[trigger] q3[j]).0,
        ) < c3.store().len());
    assert(forall|j1: int, j2: int|
        q1.len() <= j1 < j2 < q3.len() ==> crate::store::file_index((#[trigger] q3[j1]).0)
            < crate::store::file_index((#[trigger] q3[j2]).0));
    assert(q3.len() - q1.len() <= c3.store().len() - c1.store().len());
}

/// Resolve every import in a term: repeat references become their cached
/// handle at once; first encounters are loaded, parsed, queued on `pending`
/// and likewise replaced by their fresh handle. The result carries no
/// unresolved import; the stage cache itself is not touched.
pub fn resolve_imports<F: FileSystem>(
    cache: &mut Cache<F>,
    pending: &mut Vec<PendingImport>,
    t: Term,
    parent: &String,
) -> (r: Result<Term, ImportError>)
    requires
        old(cache).wf(),
    ensures
        walk_post(old(cache), final(cache), old(pending)@, final(pending)@),
        r matches Ok(t2) ==> no_imports(t2) && resolves_to(t, t2),
        no_imports(t) ==> r is Ok && final(pending)@ == old(pending)@,
    decreases t,
{
    proof {
        crate::cache::lemma_prefix_refl(cache.store());
    }
    match t {
        Term::Num(n) => Ok(Term::Num(n)),
        Term::Var(x) => Ok(Term::Var(x)),
        Term::Let(x, t1, t2) => {
            let r1 = resolve_imports(cache, pending, *t1, parent)?;
            let ghost cmid = *cache;
            let ghost qmid = pending@;
            let r2res = resolve_imports(cache, pending, *t2, parent);
            proof {
                lemma_walk_post_trans(old(cache), &cmid, cache, old(pending)@, qmid, pending@);
            }
            let r2 = r2res?;
            Ok(Term::Let(x, Box::new(r1), Box::new(r2)))
        },
        Term::Record(fields) => {
            let fields2 = resolve_imports_fields(cache, pending, *fields, parent)?;
            Ok(Term::Record(Box::new(fields2)))
        },
        Term::Access(t1, f) => {
            let r1 = resolve_imports(cache, pending, *t1, parent)?;
            Ok(Term::Access(Box::new(r1), f))
        },
        Term::Import(p, span) => {
            match cache.resolve_import(&p, Some(parent), &Some(span)) {
                Ok((ResolvedTerm::FromCache(), id)) => Ok(Term::ResolvedImport(id)),
                Ok((ResolvedTerm::FromFile { term, path }, id)) => {
                    pending.push((id, term, path));
                    Ok(Term::ResolvedImport(id))
                },
                Err(e) => Err(e),
            }
        },
        Term::ResolvedImport(id) => Ok(Term::ResolvedImport(id)),
    }
}

pub fn resolve_imports_fields<F: FileSystem>(
    cache: &mut Cache<F>,
    pending: &mut Vec<PendingImport>,
    fields: FieldList,
    parent: &String,
) -> (r: Result<FieldList, ImportError>)
    requires
        old(cache).wf(),
    ensures
        walk_post(old(cache), final(cache), old(pending)@, final(pending)@),
        r matches Ok(f2) ==> no_imports_fields(f2) && fields_resolve_to(fields, f2),
        no_imports_fields(fields) ==> r is Ok && final(pending)@ == old(pending)@,
    decreases fields,
{
    proof {
        crate::cache::lemma_prefix_refl(cache.store());
    }
    match fields {
        FieldList::Nil => Ok(FieldList::Nil),
        FieldList::Cons(x, t, rest) => {
            let t2 = resolve_imports(cache, pending, *t, parent)?;
            let ghost cmid = *cache;
            let ghost qmid = pending@;
            let rest2res = resolve_imports_fields(cache, pending, *rest, parent);
            proof {
                lemma_walk_post_trans(old(cache), &cmid, cache, old(pending)@, qmid, pending@);
            }
            let rest2 = rest2res?;
            Ok(FieldList::Cons(x, Box::new(t2), Box::new(rest2)))
        },
    }
}

} // verus!
