//! Terms of the configuration language, as far as the cache needs them: the
//! pipeline stores, clones and rewrites terms, and the transform pass walks
//! them to resolve `import` expressions.

use vstd::prelude::*;
use crate::position::RawSpan;

verus! {

/// A term. Imports carry the span of the `import` expression, so that a
/// failing import can be reported at the import site.
#[derive(Debug, PartialEq)]
pub enum Term {
    Num(i64),
    Var(String),
    Let(String, Box<Term>, Box<Term>),
    Record(Box<FieldList>),
    Access(Box<Term>, String),
    Import(String, RawSpan),
    /// An import whose target has been resolved to a handle of the cache.
    ResolvedImport(codespan::FileId),
}

/// The fields of a record, in source order.
#[derive(Debug, PartialEq)]
pub enum FieldList {
    Nil,
    Cons(String, Box<Term>, Box<FieldList>),
}

/// Whether a term contains no unresolved `import` left: what the transform
/// pass establishes.
pub open spec fn no_imports(t: Term) -> bool
    decreases t,
{
    match t {
        Term::Num(_) => true,
        Term::Var(_) => true,
        Term::Let(_, t1, t2) => no_imports(*t1) && no_imports(*t2),
        Term::Record(fields) => no_imports_fields(*fields),
        Term::Access(t1, _) => no_imports(*t1),
        Term::Import(_, _) => false,
        Term::ResolvedImport(_) => true,
    }
}

pub open spec fn no_imports_fields(fields: FieldList) -> bool
    decreases fields,
{
    match fields {
        FieldList::Nil => true,
        FieldList::Cons(_, t, rest) => no_imports(*t) && no_imports_fields(*rest),
    }
}

/// How the transform pass rewrites a term: `r` is `t` with every
/// `import` replaced by a resolved handle, and nothing else changed — same
/// shape, same names, same numbers, field for field.
pub open spec fn resolves_to(t: Term, r: Term) -> bool
    decreases t,
{
    match (t, r) {
        (Term::Num(a), Term::Num(b)) => a == b,
        (Term::Var(a), Term::Var(b)) => a == b,
        (Term::Let(x, t1, t2), Term::Let(y, r1, r2)) => x == y && resolves_to(*t1, *r1)
            && resolves_to(*t2, *r2),
        (Term::Record(tf), Term::Record(rf)) => fields_resolve_to(*tf, *rf),
        (Term::Access(t1, f), Term::Access(r1, g)) => f == g && resolves_to(*t1, *r1),
        (Term::Import(_, _), Term::ResolvedImport(_)) => true,
        (Term::ResolvedImport(a), Term::ResolvedImport(b)) => a == b,
        _ => false,
    }
}

pub open spec fn fields_resolve_to(fields: FieldList, r: FieldList) -> bool
    decreases fields,
{
    match (fields, r) {
        (FieldList::Nil, FieldList::Nil) => true,
        (FieldList::Cons(x, t, rest), FieldList::Cons(y, rt, rrest)) => x == y && resolves_to(
            *t,
            *rt,
        ) && fields_resolve_to(*rest, *rrest),
        _ => false,
    }
}

/// A deep copy: the clone is equal to the original.
pub fn clone_term(t: &Term) -> (r: Term)
    ensures
        r == *t,
    decreases *t,
{
    match t {
        Term::Num(n) => Term::Num(*n),
        Term::Var(x) => Term::Var(x.clone()),
        Term::Let(x, t1, t2) => Term::Let(
            x.clone(),
            Box::new(clone_term(&**t1)),
            Box::new(clone_term(&**t2)),
        ),
        Term::Record(fields) => Term::Record(Box::new(clone_fields(&**fields))),
        Term::Access(t1, f) => Term::Access(Box::new(clone_term(&**t1)), f.clone()),
        Term::Import(p, span) => Term::Import(p.clone(), *span),
        Term::ResolvedImport(id) => Term::ResolvedImport(*id),
    }
}

pub fn clone_fields(fields: &FieldList) -> (r: FieldList)
    ensures
        r == *fields,
    decreases *fields,
{
    match fields {
        FieldList::Nil => FieldList::Nil,
        FieldList::Cons(x, t, rest) => FieldList::Cons(
            x.clone(),
            Box::new(clone_term(&**t)),
            Box::new(clone_fields(&**rest)),
        ),
    }
}

} // verus!
