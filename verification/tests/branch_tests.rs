use gitdis::branch_handler::{
    apply_step, merge_documents, parse_diff, run_step, step_state, BranchHandler,
    BranchHandlerError, Change, Status, Step, WorkerEvent, WorkerState,
};
use gitdis::branch_settings::BranchSettings;
use gitdis::cache::{Cache, Event};
use gitdis::datum::Datum;
use gitdis::document::{discard_key, store_document, store_value};
use gitdis::list_props::ListProps;
use gitdis::payload::{flatten, parse_value, Ref, RefType};

const TEST_URL: &str = "https://github.com/lowcarboncode/gitdis-example-repository.git";

fn number(s: &str) -> Datum {
    Datum::Number(s.to_string())
}

fn keys(cache: &Cache<Datum>) -> Vec<String> {
    cache
        .list(ListProps::new().limit(1000))
        .unwrap()
        .into_iter()
        .map(|(k, _)| k)
        .collect()
}

fn handler() -> BranchHandler {
    BranchHandler::new(
        "/data".to_string(),
        "https://github.com/acme/demo.git".to_string(),
        "main".to_string(),
        1000,
        None,
    )
}

#[test]
fn test_branch_settings_get_branch_key() {
    let branch_settings = BranchSettings::new(TEST_URL.to_string(), "main".to_string(), 1000, None);

    let branch_key = branch_settings.key;
    assert_eq!(branch_key, "lowcarboncode/gitdis-example-repository/main");
}

#[test]
fn key_derivation() {
    let settings =
        BranchSettings::new("git@github.com:acme/demo.git".to_string(), "main".to_string(), 1, None);
    assert_eq!(settings.key, "acme/demo/main");
    let settings = BranchSettings::new(
        "https://github.com/acme/demo.git".to_string(),
        "main".to_string(),
        1,
        Some("default".to_string()),
    );
    assert_eq!(settings.key, "acme/demo/main");
    assert_eq!(settings.url, "https://github.com/acme/demo.git");
    assert_eq!(settings.branch_name, "main");
    assert_eq!(settings.pull_request_interval_millis, 1);
    assert_eq!(settings.path_target, Some("default".to_string()));
}

#[test]
fn key_derivation_at_the_edges() {
    assert_eq!(BranchSettings::create_branch_key("a/b", "dev"), "a/b/dev");
    assert_eq!(BranchSettings::create_branch_key("/", "dev"), "//dev");
    assert_eq!(BranchSettings::create_branch_key("x:y:z/r.tar.gz", "b"), "y/r/b");
    assert_eq!(BranchSettings::create_branch_key("ssh://git@h:o/r.git", "b"), "o/r/b");
    assert_eq!(BranchSettings::create_branch_key("h:/r", "b"), "/r/b");
    assert_eq!(BranchSettings::create_branch_key("é/ü.git", "ß"), "é/ü/ß");
}

#[test]
fn test_branch_new() {
    let cache: Cache<Datum> = Cache::new(10);
    assert_eq!(cache.capacity(), 10);
}

#[test]
fn test_branch_insert_and_get() {
    let mut cache = Cache::new(10);

    cache.insert("key1".to_string(), number("1"));
    cache.insert("key2".to_string(), number("2"));
    assert_eq!(cache.get("key1"), Some(&number("1")));
    assert_eq!(cache.get("key2"), Some(&number("2")));
}

#[test]
fn test_branch_remove() {
    let mut cache = Cache::new(10);

    cache.insert("key1".to_string(), number("1"));
    cache.insert("key2".to_string(), number("2"));
    cache.remove("key1").unwrap();
    assert_eq!(cache.get("key1"), None);
    assert_eq!(cache.get("key2"), Some(&number("2")));
}

#[test]
fn test_branch_clear() {
    let mut cache = Cache::new(10);

    cache.insert("key1".to_string(), number("1"));
    cache.insert("key2".to_string(), number("2"));
    cache.clear();
    assert_eq!(cache.get("key1"), None);
    assert_eq!(cache.get("key2"), None);
}

#[test]
fn test_tree_new() {
    let cache: Cache<Cache<Datum>> = Cache::new(10);
    assert_eq!(cache.capacity(), 10);
}

#[test]
fn a_new_handler_places_the_working_copy() {
    let h = handler();
    assert_eq!(h.clone_path, "/data");
    assert_eq!(h.repo_path, "/data/demo");
    assert_eq!(h.target_path, "/data/demo");
    assert_eq!(h.ignore, vec!["/.git/".to_string()]);
    assert_eq!(h.current_commit_hash, "");
    assert_eq!(h.pull_request_interval_millis, 1000);
    let h = BranchHandler::new(
        "data".to_string(),
        "git@host:o/r".to_string(),
        "b".to_string(),
        5,
        Some("default/settings.yml".to_string()),
    );
    assert_eq!(h.repo_path, "data/r");
    assert_eq!(h.target_path, "data/r/default/settings.yml");
    let h = BranchHandler::new("d".to_string(), "a/x.git.git".to_string(), "b".to_string(), 5, None);
    assert_eq!(h.repo_path, "d/x.git");
    let h = BranchHandler::new("d".to_string(), "plain".to_string(), "b".to_string(), 5, None);
    assert_eq!(h.repo_path, "d/plain");
    let h = BranchHandler::new("d".to_string(), "a/git".to_string(), "b".to_string(), 5, None);
    assert_eq!(h.repo_path, "d/git");
    let mut h = handler();
    h.concat_repo_path("sub");
    assert_eq!(h.repo_path, "/data/demo/sub");
}

#[test]
fn cache_keys_of_paths() {
    let h = handler();
    assert_eq!(h.fix_key("/data/demo/default/settings.yml"), "default.settings");
    assert_eq!(h.fix_key("/data/demo/x.json"), "x");
    assert_eq!(h.fix_key("/data/demo/a/b/c.d.json"), "a.b.c");
    assert_eq!(h.fix_key("other/x.json"), "other.x");
    assert_eq!(h.fix_key("/data/demo/noext"), "noext");
    assert_eq!(h.fix_key("/data/demo/.hidden"), "");
    assert_eq!(h.fix_key("/data/demo//data/demo/x.json"), ".data.demo.x");
}

#[test]
fn ignored_and_rejected_paths() {
    let h = handler();
    assert!(h.is_ignore("/data/demo/.git/config"));
    assert!(h.is_ignore("/data/demo/.git/x.json"));
    assert!(!h.is_ignore("/data/demo/.github/x.json"));
    assert!(!h.is_ignore("/data/demo/.git"));
    assert!(h.is_valid_file("/data/demo/x.json"));
    assert!(!h.is_valid_file("/data/demo/x.txt"));
    assert!(h.rejects("/data/demo/.git/x.json"));
    assert!(h.rejects("/data/demo/x.toml"));
    assert!(!h.rejects("/data/demo/x.yaml"));
}

#[test]
fn diff_parsing() {
    assert_eq!(
        parse_diff("A\0p\0"),
        vec![Change { status: Status::Added, path: "p".to_string(), new_path: None }]
    );
    assert_eq!(
        parse_diff("Rxx\0a\0b\0"),
        vec![Change {
            status: Status::Renamed,
            path: "a".to_string(),
            new_path: Some("b".to_string())
        }]
    );
    assert_eq!(
        parse_diff("C075\0a\0b\0D\0c\0M\0d\0"),
        vec![
            Change { status: Status::Copied, path: "a".to_string(), new_path: Some("b".to_string()) },
            Change { status: Status::Deleted, path: "c".to_string(), new_path: None },
            Change { status: Status::Modified, path: "d".to_string(), new_path: None },
        ]
    );
}

#[test]
fn diff_parsing_ends_without_error() {
    assert!(parse_diff("").is_empty());
    assert!(parse_diff("\0A\0p\0").is_empty());
    assert!(parse_diff("A").is_empty());
    assert!(parse_diff("A\0").is_empty());
    assert!(parse_diff("A\0p").is_empty());
    assert!(parse_diff("A\0\0").is_empty());
    assert!(parse_diff("A\0\0p\0").is_empty());
    assert!(parse_diff("R100\0a").is_empty());
    assert!(parse_diff("R100\0a\0").is_empty());
    assert!(parse_diff("R100\0a\0b").is_empty());
    assert!(parse_diff("R100\0a\0\0").is_empty());
    assert!(parse_diff("R100\0\0b\0").is_empty());
    assert!(parse_diff("C\0a.json\0").is_empty());
    assert_eq!(
        parse_diff("A\0p\0\0D\0q\0"),
        vec![Change { status: Status::Added, path: "p".to_string(), new_path: None }]
    );
    assert_eq!(
        parse_diff("A\0p\0R100\0a\0"),
        vec![Change { status: Status::Added, path: "p".to_string(), new_path: None }]
    );
    assert_eq!(
        parse_diff("A\0p\0D\0q"),
        vec![Change { status: Status::Added, path: "p".to_string(), new_path: None }]
    );
    assert_eq!(
        parse_diff("D\0q\0M"),
        vec![Change { status: Status::Deleted, path: "q".to_string(), new_path: None }]
    );
    assert_eq!(
        parse_diff("T\0D\0q\0garbage"),
        vec![Change { status: Status::Deleted, path: "q".to_string(), new_path: None }]
    );
    assert_eq!(
        parse_diff("AA\0U\0x\0A\0p\0"),
        vec![Change { status: Status::Added, path: "p".to_string(), new_path: None }]
    );
}

#[test]
fn a_record_that_is_cut_off_reaches_no_cache() {
    let mut h = handler();
    assert!(h.update("c1".to_string(), "R\0a.json\0").is_empty());
    assert!(h.update("c2".to_string(), "C\0a.json\0").is_empty());
    assert!(h.update("c3".to_string(), "D\0a.json").is_empty());
    assert_eq!(
        h.update("c4".to_string(), "M\0x.json\0R090\0a.json\0"),
        vec![Step::Load { file: "/data/demo/x.json".to_string(), key: "x".to_string() }]
    );
    assert_eq!(
        h.update("c5".to_string(), "D\0x.json\0\0A\0y.json\0"),
        vec![Step::Remove { key: "x".to_string() }]
    );
    assert_eq!(h.current_commit_hash, "c5");
}

#[test]
fn steps_of_changes() {
    let h = handler();
    let change = |status, path: &str, new_path: Option<&str>| Change {
        status,
        path: path.to_string(),
        new_path: new_path.map(|p| p.to_string()),
    };
    let load = |file: &str, key: &str| Step::Load { file: file.to_string(), key: key.to_string() };
    let remove = |key: &str| Step::Remove { key: key.to_string() };
    assert_eq!(
        h.steps(&change(Status::Added, "a/x.json", None)),
        vec![load("/data/demo/a/x.json", "a.x")]
    );
    assert_eq!(
        h.steps(&change(Status::Modified, "x.yml", None)),
        vec![load("/data/demo/x.yml", "x")]
    );
    assert_eq!(
        h.steps(&change(Status::Copied, "x.yml", Some("y.yml"))),
        vec![load("/data/demo/x.yml", "x")]
    );
    assert_eq!(h.steps(&change(Status::Deleted, "x.yml", None)), vec![remove("x")]);
    assert_eq!(
        h.steps(&change(Status::Renamed, "x.json", Some("y.json"))),
        vec![load("/data/demo/y.json", "y"), remove("x")]
    );
    assert_eq!(
        h.steps(&change(Status::Renamed, "x.json", Some("x.yaml"))),
        vec![load("/data/demo/x.yaml", "x")]
    );
    assert_eq!(
        h.steps(&change(Status::Renamed, "x.json", Some("x.txt"))),
        vec![remove("x")]
    );
    assert!(h.steps(&change(Status::Renamed, "x.txt", Some("x.json"))).is_empty());
    assert!(h.steps(&change(Status::Renamed, "x.json", None)).is_empty());
    assert!(h.steps(&change(Status::Added, "x.txt", None)).is_empty());
    assert!(h.steps(&change(Status::Deleted, "README.md", None)).is_empty());
    assert!(h.steps(&change(Status::Modified, ".git/x.json", None)).is_empty());
    assert_eq!(
        h.plan(&vec![
            change(Status::Added, "x.json", None),
            change(Status::Added, "x.bin", None),
            change(Status::Deleted, "y.json", None),
        ]),
        vec![load("/data/demo/x.json", "x"), remove("y")]
    );
}

#[test]
fn update_follows_the_commit_cursor() {
    let mut h = handler();
    assert!(h.has_moved("abc"));
    let steps = h.update("abc".to_string(), "A\0x.json\0");
    assert_eq!(
        steps,
        vec![Step::Load { file: "/data/demo/x.json".to_string(), key: "x".to_string() }]
    );
    assert_eq!(h.current_commit_hash, "abc");
    assert!(!h.has_moved("abc"));
    assert!(h.update("abc".to_string(), "A\0y.json\0").is_empty());
    assert_eq!(h.update("def".to_string(), "D\0x.json\0").len(), 1);
    assert_eq!(h.current_commit_hash, "def");
    h.advance("".to_string());
    assert_eq!(h.current_commit_hash, "");
}

#[test]
fn rename_via_diff() {
    let mut h = handler();
    let mut cache: Cache<Datum> = Cache::with_events(100);
    let steps = h.update("c1".to_string(), "A\0x.json\0M\0x.json\0Ryy\0x.json\0y.json\0");
    assert_eq!(steps.len(), 4);
    for step in &steps {
        run_step(&mut cache, step, r#"{"v":1}"#);
    }
    assert_eq!(cache.get("y.v"), Some(&number("1")));
    assert!(cache.contains_key("y"));
    assert!(!cache.contains_key("x"));
    assert_eq!(keys(&cache), vec!["x.v", "y", "y.v"]);
}

#[test]
fn rename_of_a_leaf_document_there_and_back() {
    let h = handler();
    let mut cache: Cache<Datum> = Cache::new(100);
    store_value(&mut cache, "a", &number("1"));
    store_value(&mut cache, "other", &Datum::Null);
    let before = cache.clone();
    let forth = Change {
        status: Status::Renamed,
        path: "a.json".to_string(),
        new_path: Some("b.json".to_string()),
    };
    let back = Change {
        status: Status::Renamed,
        path: "b.json".to_string(),
        new_path: Some("a.json".to_string()),
    };
    for step in h.plan(&vec![forth, back]) {
        run_step(&mut cache, &step, "1");
    }
    assert_eq!(cache, before);
}

#[test]
fn a_decode_error_records_one_insert_of_undefined() {
    let mut cache: Cache<Datum> = Cache::with_events(10);
    let step = Step::Load { file: "/data/demo/x.json".to_string(), key: "x".to_string() };
    run_step(&mut cache, &step, "{broken");
    assert_eq!(
        cache.take_events(),
        vec![Event::Insert { key: "x".to_string(), value: Datum::Undefined }]
    );
    assert_eq!(cache.get("x"), Some(&Datum::Undefined));
    run_step(&mut cache, &step, "{broken");
    assert!(cache.take_events().is_empty());
}

#[test]
fn the_same_bytes_twice_leave_the_same_cache() {
    let mut cache: Cache<Datum> = Cache::with_events(100);
    let value = parse_value("x.json", r#"{"a":[1,2,{"b":"c"}],"d":null}"#);
    store_value(&mut cache, "x", &value);
    let once = cache.clone();
    assert_eq!(cache.take_events().len(), 7);
    store_value(&mut cache, "x", &value);
    assert!(cache.take_events().is_empty());
    let mut expected = once;
    let _ = expected.take_events();
    assert_eq!(cache, expected);
}

#[test]
fn a_document_enters_the_cache_leaves_first() {
    let mut cache: Cache<Datum> = Cache::with_events(100);
    let value = Datum::Object(vec![
        ("b".to_string(), number("2")),
        ("a".to_string(), Datum::Array(vec![Datum::Bool(true)])),
    ]);
    let (flat, refs) = flatten("doc", &value);
    store_document(&mut cache, &flat, &refs);
    let events: Vec<String> = cache
        .take_events()
        .into_iter()
        .map(|e| match e {
            Event::Insert { key, .. } => key,
            _ => panic!("no insert"),
        })
        .collect();
    assert_eq!(events, vec!["doc.a.0", "doc.b", "doc", "doc.a"]);
    assert_eq!(cache.get("doc.a.0"), Some(&Datum::Bool(true)));
    assert_eq!(
        cache.get("doc.a"),
        Some(&Ref { ref_type: RefType::Array, items: vec!["doc.a.0".to_string()] }.to_value())
    );
    assert_eq!(
        cache.get("doc").unwrap().get("children"),
        Some(&Datum::Array(vec![
            Datum::String("doc.b".to_string()),
            Datum::String("doc.a".to_string())
        ]))
    );
}

#[test]
fn discarding_an_absent_key_is_no_error() {
    let mut cache: Cache<Datum> = Cache::with_events(10);
    discard_key(&mut cache, "x");
    assert!(cache.take_events().is_empty());
    cache.insert("x".to_string(), Datum::Null);
    discard_key(&mut cache, "x");
    assert!(cache.is_empty());
    let step = Step::Remove { key: "y".to_string() };
    apply_step(&mut cache, &step, &Datum::Null);
    assert!(cache.is_empty());
    let step = Step::Load { file: "f.json".to_string(), key: "y".to_string() };
    apply_step(&mut cache, &step, &number("3"));
    assert_eq!(cache.get("y"), Some(&number("3")));
}

#[test]
fn initial_data_of_the_accepted_files() {
    let h = handler();
    let files = vec![
        ("/data/demo/default/settings.yml".to_string(), "services:\n  foo: true\n".to_string()),
        ("/data/demo/README.md".to_string(), "# hello".to_string()),
        ("/data/demo/.git/x.json".to_string(), "{}".to_string()),
        ("/data/demo/x.json".to_string(), "[7]".to_string()),
        ("/data/demo/broken.json".to_string(), "[".to_string()),
        ("/data/demo/page.xml".to_string(), "<a/>".to_string()),
    ];
    let docs = h.decode_files(&files);
    let names: Vec<&str> = docs.iter().map(|d| d.0.as_str()).collect();
    assert_eq!(names, vec!["default.settings", "x", "broken", "page"]);
    assert_eq!(docs[1].1, Datum::Array(vec![number("7")]));
    assert_eq!(docs[2].1, Datum::Undefined);
    assert_eq!(docs[3].1, Datum::Undefined);
    let (flat, refs) = h.get_initial_data(&files);
    assert_eq!(flat.get("default.settings.services.foo"), Some(&Datum::Bool(true)));
    assert_eq!(flat.get("x.0"), Some(&number("7")));
    assert_eq!(flat.get("broken"), Some(&Datum::Undefined));
    assert_eq!(flat.get("page"), Some(&Datum::Undefined));
    assert_eq!(flat.len(), 4);
    assert_eq!(refs.len(), 3);
    let merged = merge_documents(&docs);
    assert_eq!(merged.0.len(), 4);
    assert_eq!(merged.1.len(), 3);
    let mut cache: Cache<Datum> = Cache::new(100);
    store_document(&mut cache, &flat, &refs);
    assert_eq!(cache.len(), 7);
}

#[test]
fn worker_states() {
    let (created, synchronizing, failed) =
        (WorkerState::Created, WorkerState::Synchronizing, WorkerState::Failed);
    assert_eq!(step_state(created, WorkerEvent::SetupOk), synchronizing);
    assert_eq!(step_state(created, WorkerEvent::SetupFailed), failed);
    assert_eq!(step_state(created, WorkerEvent::Tick), created);
    assert_eq!(step_state(synchronizing, WorkerEvent::Tick), synchronizing);
    assert_eq!(step_state(synchronizing, WorkerEvent::GitError), synchronizing);
    assert_eq!(step_state(synchronizing, WorkerEvent::SetupFailed), synchronizing);
    assert_eq!(step_state(failed, WorkerEvent::SetupOk), failed);
    assert_eq!(step_state(failed, WorkerEvent::Tick), failed);
}

#[test]
fn git_errors_in_words() {
    let e = BranchHandlerError::GitError((Some(128), "fatal: not a repository".to_string()));
    assert_eq!(e.message(), "Git error: code: Some(128), error: fatal: not a repository");
    let e = BranchHandlerError::GitError((None, "killed".to_string()));
    assert_eq!(e.message(), "Git error: code: None, error: killed");
    let e = BranchHandlerError::GitError((Some(-1), "".to_string()));
    assert_eq!(e.message(), "Git error: code: Some(-1), error: ");
    let e = BranchHandlerError::GitError((Some(i32::MIN), "".to_string()));
    assert_eq!(e.message(), "Git error: code: Some(-2147483648), error: ");
    let e = BranchHandlerError::GitError((Some(0), "".to_string()));
    assert_eq!(e.message(), "Git error: code: Some(0), error: ");
}
