//! The typechecker the pipeline drives: a scope check. A term is well-typed
//! when every variable is bound, either by an enclosing `let` or by the
//! global environment; imports and field accesses are dynamic and always
//! accepted. The import resolver capability is part of the interface so that
//! richer checkers can type imported bindings through it.

use vstd::prelude::*;
use crate::error::TypecheckError;
use crate::term::{FieldList, Term};

verus! {

/// A global type environment: the names the host binds before any source is
/// checked.
pub struct Environment {
    pub bindings: Vec<String>,
}

impl Environment {
    pub fn new() -> (r: Environment)
        ensures
            r.bindings@.len() == 0,
    {
        Environment { bindings: Vec::new() }
    }
}

/// The names a sequence of bindings makes visible.
pub open spec fn names_of(bindings: Seq<String>) -> Seq<Seq<char>> {
    bindings.map_values(|s: String| s@)
}

/// What it means for a term to be well-typed under a scope.
pub open spec fn spec_typechecks(t: Term, scope: Seq<Seq<char>>) -> bool
    decreases t,
{
    match t {
        Term::Num(_) => true,
        Term::Var(x) => scope.contains(x@),
        Term::Let(x, t1, t2) => spec_typechecks(*t1, scope) && spec_typechecks(
            *t2,
            scope.push(x@),
        ),
        Term::Record(fields) => spec_fields_typecheck(*fields, scope),
        Term::Access(t1, _) => spec_typechecks(*t1, scope),
        Term::Import(_, _) => true,
        Term::ResolvedImport(_) => true,
    }
}

pub open spec fn spec_fields_typecheck(fields: FieldList, scope: Seq<Seq<char>>) -> bool
    decreases fields,
{
    match fields {
        FieldList::Nil => true,
        FieldList::Cons(_, t, rest) => spec_typechecks(*t, scope) && spec_fields_typecheck(
            *rest,
            scope,
        ),
    }
}

fn scope_contains(scope: &Vec<String>, x: &String) -> (r: bool)
    ensures
        r == names_of(scope@).contains(x@),
{
    let mut i: usize = 0;
    while i < scope.len()
        invariant
            i <= scope@.len(),
            forall|j: int| 0 <= j < i ==> names_of(scope@)[j] != x@,
        decreases scope@.len() - i,
    {
        if scope[i] == *x {
            assert(names_of(scope@)[i as int] == x@);
            return true;
        }
        i = i + 1;
    }
    false
}

fn check(t: &Term, scope: &mut Vec<String>) -> (r: Result<(), TypecheckError>)
    ensures
        final(scope)@ == old(scope)@,
        r is Ok <==> spec_typechecks(*t, names_of(old(scope)@)),
    decreases *t,
{
    match t {
        Term::Num(_) => Ok(()),
        Term::Var(x) => {
            if scope_contains(scope, x) {
                Ok(())
            } else {
                Err(TypecheckError::UnboundIdentifier(x.clone()))
            }
        },
        Term::Let(x, t1, t2) => {
            check(&**t1, scope)?;
            scope.push(x.clone());
            let res = check(&**t2, scope);
            let popped = scope.pop();
            proof {
                assert(scope@ =~= old(scope)@);
                assert(names_of(scope@.push(*x)) =~= names_of(scope@).push(x@));
            }
            res
        },
        Term::Record(fields) => check_fields(&**fields, scope),
        Term::Access(t1, _) => check(&**t1, scope),
        Term::Import(_, _) => Ok(()),
        Term::ResolvedImport(_) => Ok(()),
    }
}

fn check_fields(fields: &FieldList, scope: &mut Vec<String>) -> (r: Result<(), TypecheckError>)
    ensures
        final(scope)@ == old(scope)@,
        r is Ok <==> spec_fields_typecheck(*fields, names_of(old(scope)@)),
    decreases *fields,
{
    match fields {
        FieldList::Nil => Ok(()),
        FieldList::Cons(_, t, rest) => {
            check(&**t, scope)?;
            check_fields(&**rest, scope)
        },
    }
}

/// Check a term against the global environment. The resolver parameter is the
/// import resolution capability of the surrounding pipeline; this checker
/// treats imports as dynamically typed and leaves the resolver untouched.
pub fn type_check<R>(t: &Term, global_env: &Environment, _resolver: &R) -> (r: Result<
    (),
    TypecheckError,
>)
    ensures
        r is Ok <==> spec_typechecks(*t, names_of(global_env.bindings@)),
{
    let mut scope: Vec<String> = Vec::new();
    let mut i: usize = 0;
    while i < global_env.bindings.len()
        invariant
            i <= global_env.bindings@.len(),
            scope@ == global_env.bindings@.subrange(0, i as int),
        decreases global_env.bindings@.len() - i,
    {
        scope.push(global_env.bindings[i].clone());
        proof {
            assert(scope@ =~= global_env.bindings@.subrange(0, i + 1));
        }
        i = i + 1;
    }
    proof {
        assert(scope@ =~= global_env.bindings@);
    }
    check(t, &mut scope)
}

} // verus!
