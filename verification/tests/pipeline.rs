use source_cache::cache::{Cache, CacheError, CacheOp, EntryState, ResolvedTerm};
use source_cache::error::{Error, ImportError, TypecheckError};
use source_cache::fs::MemoryFs;
use source_cache::term::{FieldList, Term};
use source_cache::typecheck::Environment;

fn fs_with(files: &[(&str, &str, u64)]) -> MemoryFs {
    let mut fs = MemoryFs::new();
    for (path, content, ts) in files {
        fs.add(path.to_string(), content.to_string(), *ts);
    }
    fs
}

fn env() -> Environment {
    Environment::new()
}

#[test]
fn parse_twice_is_cached_and_term_identical() {
    let mut cache = Cache::new(MemoryFs::new());
    let id = cache.add_string("snippet".to_string(), "let x = 1 in x".to_string());
    assert_eq!(cache.parse(id).unwrap(), CacheOp::Done);
    let first = cache.get_owned(id).unwrap();
    assert_eq!(cache.parse(id).unwrap(), CacheOp::Cached);
    let second = cache.get_owned(id).unwrap();
    assert_eq!(first, second);
}

#[test]
fn typecheck_and_transform_twice_are_cached() {
    let mut cache = Cache::new(MemoryFs::new());
    let id = cache.add_string("snippet".to_string(), "let x = 1 in x".to_string());
    cache.parse(id).unwrap();
    assert_eq!(cache.typecheck(id, &env()).unwrap(), CacheOp::Done);
    assert_eq!(cache.typecheck(id, &env()).unwrap(), CacheOp::Cached);
    assert_eq!(cache.transform(id).unwrap(), CacheOp::Done);
    let first = cache.get_owned(id).unwrap();
    assert_eq!(cache.transform(id).unwrap(), CacheOp::Cached);
    assert_eq!(cache.get_owned(id).unwrap(), first);
}

#[test]
fn prepare_twice_is_cached() {
    let mut cache = Cache::new(MemoryFs::new());
    let id = cache.add_string("snippet".to_string(), "{ y = 1 }".to_string());
    assert_eq!(cache.prepare(id, &env()).unwrap(), CacheOp::Done);
    let first = cache.get_owned(id).unwrap();
    assert_eq!(cache.prepare(id, &env()).unwrap(), CacheOp::Cached);
    assert_eq!(cache.get_owned(id).unwrap(), first);
}

#[test]
fn stages_move_forward_only() {
    let mut cache = Cache::new(MemoryFs::new());
    let id = cache.add_string("snippet".to_string(), "let x = 2 in x.y".to_string());
    assert_eq!(cache.entry_state(id), None);
    cache.parse(id).unwrap();
    assert_eq!(cache.entry_state(id), Some(EntryState::Parsed));
    cache.typecheck(id, &env()).unwrap();
    assert_eq!(cache.entry_state(id), Some(EntryState::Typechecked));
    cache.transform(id).unwrap();
    assert_eq!(cache.entry_state(id), Some(EntryState::Transformed));
    // re-running any stage leaves the terminal stage in place
    cache.parse(id).unwrap();
    cache.typecheck(id, &env()).unwrap();
    cache.transform(id).unwrap();
    assert_eq!(cache.entry_state(id), Some(EntryState::Transformed));
    assert!(EntryState::Parsed < EntryState::Typechecked);
    assert!(EntryState::Typechecked < EntryState::Transformed);
}

#[test]
fn loading_unchanged_file_returns_same_handle() {
    let fs = fs_with(&[("a", "1", 7)]);
    let mut cache = Cache::new(fs);
    let h1 = cache.add_file("a".to_string()).unwrap();
    let h2 = cache.add_file("a".to_string()).unwrap();
    assert_eq!(h1, h2);
}

#[test]
fn loading_modified_file_returns_new_handle_and_keeps_old() {
    let fs = fs_with(&[("a", "1", 7)]);
    let mut cache = Cache::new(fs);
    let h1 = cache.add_file("a".to_string()).unwrap();
    cache.parse(h1).unwrap();
    // simulate an edit: same path, later modification time
    cache.fs_mut().entries[0].2 = 8;
    let h2 = cache.add_file("a".to_string()).unwrap();
    assert_ne!(h1, h2);
    // the old handle's source record and stage-cache entry are still there
    assert_eq!(cache.name(h1), "a".to_string());
    assert_eq!(cache.entry_state(h1), Some(EntryState::Parsed));
    // but the name now resolves to the new handle
    assert_eq!(cache.id_of(&"a".to_string()), Some(h2));
}

#[test]
fn resolving_same_path_twice_hits_the_cache() {
    let fs = fs_with(&[("lib", "{ y = 1 }", 1)]);
    let mut cache = Cache::new(fs);
    let (first, id1) = cache.resolve_import(&"lib".to_string(), None, &None).unwrap();
    match first {
        ResolvedTerm::FromFile { term, path } => {
            assert_eq!(path, "lib".to_string());
            assert_eq!(
                term,
                Term::Record(Box::new(FieldList::Cons(
                    "y".to_string(),
                    Box::new(Term::Num(1)),
                    Box::new(FieldList::Nil),
                )))
            );
        }
        ResolvedTerm::FromCache() => panic!("first resolution must load the file"),
    }
    let (second, id2) = cache.resolve_import(&"lib".to_string(), None, &None).unwrap();
    assert_eq!(second, ResolvedTerm::FromCache());
    assert_eq!(id1, id2);
}

#[test]
fn cyclic_imports_terminate_and_both_end_transformed() {
    let fs = fs_with(&[
        ("a", "let x = import \"b\" in x", 1),
        ("b", "let y = import \"a\" in y", 1),
    ]);
    let mut cache = Cache::new(fs);
    let ha = cache.add_file("a".to_string()).unwrap();
    assert_eq!(cache.prepare(ha, &env()).unwrap(), CacheOp::Done);
    let hb = cache.id_of(&"b".to_string()).expect("b must be registered");
    assert_eq!(cache.entry_state(ha), Some(EntryState::Transformed));
    assert_eq!(cache.entry_state(hb), Some(EntryState::Transformed));
}

#[test]
fn end_to_end_import_scenario() {
    let fs = fs_with(&[("lib", "{ y = 1 }", 1)]);
    let mut cache = Cache::new(fs);
    let main = cache.add_string("main".to_string(), "let x = import \"lib\" in x.y".to_string());
    assert_eq!(cache.prepare(main, &env()).unwrap(), CacheOp::Done);
    let lib = cache.id_of(&"lib".to_string()).expect("lib must be registered");
    let lib_term = cache.get(lib).expect("lib must be transformed");
    assert_eq!(
        lib_term,
        Term::Record(Box::new(FieldList::Cons(
            "y".to_string(),
            Box::new(Term::Num(1)),
            Box::new(FieldList::Nil),
        )))
    );
    let main_term = cache.get_owned(main).unwrap();
    assert_eq!(
        main_term,
        Term::Let(
            "x".to_string(),
            Box::new(Term::ResolvedImport(lib)),
            Box::new(Term::Access(Box::new(Term::Var("x".to_string())), "y".to_string())),
        )
    );
}

#[test]
fn missing_import_reports_io_error_at_the_import_site() {
    let mut cache = Cache::new(MemoryFs::new());
    let main = cache.add_string("main".to_string(), "import \"nowhere\"".to_string());
    let err = cache.prepare(main, &env()).unwrap_err();
    match err {
        Error::Import(ImportError::IOError(path, _msg, pos)) => {
            assert_eq!(path, "nowhere".to_string());
            let span = pos.expect("the import position must be attached");
            assert_eq!(span.src_id, main);
            assert_eq!(span.start, 0);
        }
        other => panic!("expected an import error wrapping an I/O error, got {:?}", other),
    }
    // no stage-cache entry was created for the unresolved path
    assert_eq!(cache.get_id(&"nowhere".to_string(), None), None);
    assert_eq!(cache.id_of(&"nowhere".to_string()), None);
}

#[test]
fn typecheck_reports_unbound_identifier() {
    let mut cache = Cache::new(MemoryFs::new());
    let id = cache.add_string("snippet".to_string(), "let x = z in x".to_string());
    let err = cache.prepare(id, &env()).unwrap_err();
    assert_eq!(
        err,
        Error::Typecheck(TypecheckError::UnboundIdentifier("z".to_string()))
    );
}

#[test]
fn global_environment_binds_identifiers() {
    let mut cache = Cache::new(MemoryFs::new());
    let id = cache.add_string("snippet".to_string(), "builtin".to_string());
    let mut global = Environment::new();
    global.bindings.push("builtin".to_string());
    assert_eq!(cache.prepare(id, &global).unwrap(), CacheOp::Done);
}

#[test]
fn parse_error_is_reported_with_its_handle() {
    let mut cache = Cache::new(MemoryFs::new());
    let id = cache.add_string("snippet".to_string(), "let = 3".to_string());
    let err = cache.parse(id).unwrap_err();
    assert_eq!(err.span.src_id, id);
    assert_eq!(cache.entry_state(id), None);
}

#[test]
fn imported_file_with_syntax_error_reports_parse_error() {
    let fs = fs_with(&[("bad", "{ = }", 1)]);
    let mut cache = Cache::new(fs);
    let main = cache.add_string("main".to_string(), "import \"bad\"".to_string());
    let err = cache.prepare(main, &env()).unwrap_err();
    match err {
        Error::Import(ImportError::ParseError(pe, pos)) => {
            assert!(pos.is_some());
            assert_ne!(pe.span.src_id, main);
        }
        other => panic!("expected an import error wrapping a parse error, got {:?}", other),
    }
}

#[test]
fn typecheck_before_parse_is_the_not_parsed_violation() {
    let mut cache = Cache::new(MemoryFs::new());
    let id = cache.add_string("snippet".to_string(), "1".to_string());
    match cache.typecheck(id, &env()) {
        Err(CacheError::NotParsed) => {}
        _ => panic!("typecheck before parse must report NotParsed"),
    }
    match cache.transform(id) {
        Err(CacheError::NotParsed) => {}
        _ => panic!("transform before parse must report NotParsed"),
    }
}

#[test]
fn expect_err_unwraps_the_ordinary_error() {
    let e: CacheError<u32> = CacheError::Error(7);
    assert_eq!(e.expect_err("must hold an error"), 7);
}

#[test]
fn transform_inner_transforms_only_record_fields() {
    let fs = fs_with(&[("lib", "{ y = 1 }", 1)]);
    let mut cache = Cache::new(fs);
    let root = cache.add_string("root".to_string(), "{ std = import \"lib\" }".to_string());
    cache.parse(root).unwrap();
    assert_eq!(cache.transform_inner(root).unwrap(), CacheOp::Done);
    assert_eq!(cache.entry_state(root), Some(EntryState::Transformed));
    let lib = cache.id_of(&"lib".to_string()).unwrap();
    assert_eq!(cache.entry_state(lib), Some(EntryState::Transformed));
    let term = cache.get(root).unwrap();
    assert_eq!(
        term,
        Term::Record(Box::new(FieldList::Cons(
            "std".to_string(),
            Box::new(Term::ResolvedImport(lib)),
            Box::new(FieldList::Nil),
        )))
    );
    assert_eq!(cache.transform_inner(root).unwrap(), CacheOp::Cached);
}

#[test]
fn parser_reads_numbers_and_nested_records() {
    let mut cache = Cache::new(MemoryFs::new());
    let id = cache.add_string("s".to_string(), "{ a = 42, b = { c = 7 } }".to_string());
    cache.parse(id).unwrap();
    let t = cache.get_owned(id).unwrap();
    assert_eq!(
        t,
        Term::Record(Box::new(FieldList::Cons(
            "a".to_string(),
            Box::new(Term::Num(42)),
            Box::new(FieldList::Cons(
                "b".to_string(),
                Box::new(Term::Record(Box::new(FieldList::Cons(
                    "c".to_string(),
                    Box::new(Term::Num(7)),
                    Box::new(FieldList::Nil),
                )))),
                Box::new(FieldList::Nil),
            )),
        )))
    );
}
