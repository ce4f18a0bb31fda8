use source_cache::cache::{with_parent, normalize_path, Cache, CacheOp, EntryState};
use source_cache::term::Term;
use source_cache::fs::MemoryFs;
use source_cache::typecheck::Environment;

#[test]
fn with_parent_joins_relative_paths_under_the_parent_directory() {
    assert_eq!(
        with_parent(&"lib".to_string(), Some(&"dir/main".to_string())),
        "dir/lib".to_string()
    );
    assert_eq!(
        with_parent(&"sub/lib".to_string(), Some(&"dir/main".to_string())),
        "dir/sub/lib".to_string()
    );
}

#[test]
fn with_parent_keeps_absolute_paths_and_bare_names() {
    assert_eq!(
        with_parent(&"/abs/lib".to_string(), Some(&"dir/main".to_string())),
        "/abs/lib".to_string()
    );
    assert_eq!(with_parent(&"lib".to_string(), Some(&"main".to_string())), "lib".to_string());
    assert_eq!(with_parent(&"lib".to_string(), None), "lib".to_string());
}

#[test]
fn normalize_path_answers_only_for_known_paths() {
    let mut fs = MemoryFs::new();
    fs.add("known".to_string(), "1".to_string(), 1);
    assert_eq!(normalize_path(&fs, &"known".to_string()), Some("known".to_string()));
    assert_eq!(normalize_path(&fs, &"unknown".to_string()), None);
}

#[test]
fn stored_sources_keep_their_name_and_are_found_by_it() {
    let mut cache = Cache::new(MemoryFs::new());
    let id = cache.add_string("first".to_string(), "1".to_string());
    let id2 = cache.add_string("second".to_string(), "2".to_string());
    assert_ne!(id, id2);
    assert_eq!(cache.name(id), "first".to_string());
    assert_eq!(cache.name(id2), "second".to_string());
    assert_eq!(cache.id_of(&"first".to_string()), Some(id));
    assert_eq!(cache.id_of(&"missing".to_string()), None);
}

#[test]
fn add_string_supersedes_the_previous_binding_but_not_the_record() {
    let mut cache = Cache::new(MemoryFs::new());
    let id1 = cache.add_string("name".to_string(), "1".to_string());
    let id2 = cache.add_string("name".to_string(), "2".to_string());
    assert_ne!(id1, id2);
    assert_eq!(cache.id_of(&"name".to_string()), Some(id2));
    // the superseded record is still retrievable by handle
    assert_eq!(cache.name(id1), "name".to_string());
}

#[test]
fn add_source_behaves_like_add_string() {
    let mut cache = Cache::new(MemoryFs::new());
    let id = cache.add_source("src".to_string(), "41".to_string()).unwrap();
    assert_eq!(cache.id_of(&"src".to_string()), Some(id));
}

#[test]
fn add_file_on_a_missing_path_fails_and_registers_nothing() {
    let mut cache = Cache::new(MemoryFs::new());
    assert!(cache.add_file("absent".to_string()).is_err());
    assert_eq!(cache.id_of(&"absent".to_string()), None);
}

#[test]
fn update_state_returns_the_previous_stage() {
    let mut cache = Cache::new(MemoryFs::new());
    let id = cache.add_string("s".to_string(), "1".to_string());
    assert_eq!(cache.update_state(id, EntryState::Typechecked), None);
    cache.parse(id).unwrap();
    assert_eq!(cache.update_state(id, EntryState::Typechecked), Some(EntryState::Parsed));
    assert_eq!(cache.entry_state(id), Some(EntryState::Typechecked));
}

#[test]
fn get_returns_terms_only_once_transformed() {
    let mut cache = Cache::new(MemoryFs::new());
    let id = cache.add_string("s".to_string(), "1".to_string());
    assert_eq!(cache.get(id), None);
    cache.parse(id).unwrap();
    assert_eq!(cache.get(id), None);
    cache.prepare(id, &Environment::new()).unwrap();
    assert!(cache.get(id).is_some());
    assert_eq!(cache.prepare(id, &Environment::new()).unwrap(), CacheOp::Cached);
}

#[test]
fn parser_rejects_oversized_numbers_and_stray_characters() {
    let mut cache = Cache::new(MemoryFs::new());
    let big = cache.add_string("big".to_string(), "1234567890123".to_string());
    assert!(cache.parse(big).is_err());
    let stray = cache.add_string("stray".to_string(), "1 + 2".to_string());
    assert!(cache.parse(stray).is_err());
    let unterminated = cache.add_string("u".to_string(), "import \"oops".to_string());
    assert!(cache.parse(unterminated).is_err());
}

#[test]
fn field_access_chains_associate_left() {
    let mut cache = Cache::new(MemoryFs::new());
    let id = cache.add_string("s".to_string(), "let r = 1 in r.a.b".to_string());
    cache.parse(id).unwrap();
    let t = cache.get_owned(id).unwrap();
    assert_eq!(
        t,
        Term::Let(
            "r".to_string(),
            Box::new(Term::Num(1)),
            Box::new(Term::Access(
                Box::new(Term::Access(Box::new(Term::Var("r".to_string())), "a".to_string())),
                "b".to_string(),
            )),
        )
    );
}
