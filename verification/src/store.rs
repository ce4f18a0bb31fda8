//! Trusted boundary around `codespan`'s file database.
//!
//! The content store of the cache is `codespan::Files<String>`: an append-only
//! arena of (name, source) pairs addressed by the opaque `codespan::FileId`.
//! The database is modelled as a sequence of (name, source) character
//! sequences, and a file id as the index of the slot it denotes.

use vstd::prelude::*;

verus! {

#[verifier::external_type_specification]
#[verifier::external_body]
#[verifier::reject_recursive_types(S)]
pub struct ExFiles<S>(codespan::Files<S>);

#[verifier::external_type_specification]
#[verifier::external_body]
pub struct ExFileId(codespan::FileId);

/// The contents of a file database: one (name, source) pair per slot, in
/// insertion order.
pub uninterp spec fn files_model(files: codespan::Files<String>) -> Seq<(Seq<char>, Seq<char>)>;

/// The index of the arena slot that a file id denotes.
pub uninterp spec fn file_index(id: codespan::FileId) -> int;

/// Relies on `codespan::Files::new`: it returns an empty database.
#[verifier::external_body]
pub fn files_new() -> (r: codespan::Files<String>)
    ensures
        files_model(r) == Seq::<(Seq<char>, Seq<char>)>::empty(),
{
    codespan::Files::new()
}

/// Relies on `codespan::Files::add`: it appends a file to the arena and
/// returns the id of the new slot. The bound on the length keeps
/// `FileId::new` from overflowing its 32-bit representation.
#[verifier::external_body]
pub fn files_add(files: &mut codespan::Files<String>, name: String, source: String) -> (id:
    codespan::FileId)
    requires
        files_model(*old(files)).len() < 0xffff_ffff,
    ensures
        files_model(*final(files)) == files_model(*old(files)).push((name@, source@)),
        file_index(id) == files_model(*old(files)).len(),
{
    files.add(name, source)
}

/// Relies on `codespan::Files::source`: it returns the source text stored in
/// the slot the id denotes (the `String` is cloned on the way out).
#[verifier::external_body]
pub fn files_source(files: &codespan::Files<String>, id: codespan::FileId) -> (r: String)
    requires
        0 <= file_index(id) < files_model(*files).len(),
    ensures
        r@ == files_model(*files)[file_index(id)].1,
{
    files.source(id).clone()
}

/// Relies on `codespan::Files::name`: it returns the name stored in the slot
/// the id denotes (converted from `OsStr`; names stored through this module
/// are always valid UTF-8).
#[verifier::external_body]
pub fn files_name(files: &codespan::Files<String>, id: codespan::FileId) -> (r: String)
    requires
        0 <= file_index(id) < files_model(*files).len(),
    ensures
        r@ == files_model(*files)[file_index(id)].0,
{
    files.name(id).to_string_lossy().into_owned()
}

/// Relies on `codespan::FileId`'s derived `PartialEq`: two ids are equal
/// exactly when they denote the same arena slot.
#[verifier::external_body]
pub fn id_eq(a: &codespan::FileId, b: &codespan::FileId) -> (r: bool)
    ensures
        r == (file_index(*a) == file_index(*b)),
{
    *a == *b
}

} // verus!
