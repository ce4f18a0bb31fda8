//! The library's cross-call guarantees, each stated in full generality and
//! machine-checked from the public contracts alone: nothing here reads a
//! body, so any implementation meeting the same contracts obeys the same
//! laws.

use vstd::prelude::*;
use crate::cache::{Cache, CacheError, CacheOp, ResolvedTerm};
use crate::error::{Error, ImportError};
use crate::fs::FileSystem;
use crate::store::file_index;
use crate::typecheck::Environment;

verus! {

/// Identity is stable under no change: loading a file whose recorded
/// content and timestamp the filesystem still answers with returns the
/// handle of the first load, and loads it only once.
pub fn law_identity_stable<F: FileSystem>(c: &mut Cache<F>, path: String)
    requires
        old(c).wf(),
        old(c).store().len() + 1 < 0xffff_ffff,
        old(c).filesystem().model().contains_key(path@),
        !old(c).names().contains_key(path@),
{
    let r1 = c.add_file(path.clone());
    let id1 = match r1 {
        Ok(id) => id,
        Err(_) => {
            proof {
                assert(false);
            }
            return ;
        },
    };
    let r2 = c.add_file(path.clone());
    match r2 {
        Ok(id2) => {
            assert(id2 == id1);
            assert(c.store().len() == old(c).store().len() + 1);
        },
        Err(_) => {
            proof {
                assert(false);
            }
        },
    }
}

/// Cache-hit short-circuit: once an import's normalized identity has been
/// resolved, resolving it again answers `FromCache` with the same handle
/// and changes nothing.
pub fn law_second_resolution_hits<F: FileSystem>(c: &mut Cache<F>, path: String)
    requires
        old(c).wf(),
        old(c).store().len() + 1 < 0xffff_ffff,
        old(c).filesystem().model().contains_key(path@),
        !old(c).names().contains_key(path@),
{
    let r1 = c.resolve_import(&path, None, &None);
    match r1 {
        Ok(p) => {
            let id1 = p.1;
            let r2 = c.resolve_import(&path, None, &None);
            match r2 {
                Ok(p2) => {
                    assert(p2.0 is FromCache);
                    assert(p2.1 == id1);
                },
                Err(_) => {
                    proof {
                        assert(false);
                    }
                },
            }
        },
        Err(_) => {},
    }
}

/// Transform idempotence: after a `transform` that performed work, a second
/// `transform` reports `Cached` and the stored term is the one the first
/// call committed, bit for bit.
pub fn law_transform_twice_is_cached<F: FileSystem>(c: &mut Cache<F>, id: codespan::FileId)
    requires
        old(c).wf(),
{
    let r1 = c.transform(id);
    match r1 {
        Ok(CacheOp::Done) => {
            let ghost committed = c.entries()[file_index(id)];
            let r2 = c.transform(id);
            proof {
                assert(r2 == Ok::<CacheOp, CacheError<ImportError>>(CacheOp::Cached));
                assert(c.entries()[file_index(id)] == committed);
            }
        },
        _ => {},
    }
}

/// Prepare idempotence: after a `prepare` that succeeded, a second
/// `prepare` reports `Cached` and leaves the cache exactly as it was.
pub fn law_prepare_twice_is_cached<F: FileSystem>(
    c: &mut Cache<F>,
    id: codespan::FileId,
    global_env: &Environment,
)
    requires
        old(c).wf(),
        old(c).valid_id(id),
{
    let r1 = c.prepare(id, global_env);
    match r1 {
        Ok(_) => {
            let ghost mid = *c;
            let r2 = c.prepare(id, global_env);
            proof {
                assert(r2 == Ok::<CacheOp, Error>(CacheOp::Cached));
                assert(c.entries() == mid.entries());
                assert(c.same_maps(&mid));
            }
        },
        Err(_) => {},
    }
}

} // verus!
