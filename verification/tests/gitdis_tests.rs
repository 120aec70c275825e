use gitdis::branch_settings::BranchSettings;
use gitdis::cache::Event;
use gitdis::cache_branch::CacheBranch;
use gitdis::datum::Datum;
use gitdis::document::store_value;
use gitdis::gitdis::{Branch, Gitdis, GitdisError, GitdisSettings};
use gitdis::routers::{resolve_errors, CreateRepo, MessageError, ObjectBranchData, ObjectParams};
use gitdis::services::{GitdisService, GitdisServiceError, ServiceAddBranchResponse};

const TEST_URL: &str = "https://github.com/lowcarboncode/gitdis-example-repository.git";

fn settings() -> GitdisSettings {
    GitdisSettings { total_branch_items: 100, local_clone_path: "data".to_string() }
}

fn text(s: &str) -> Datum {
    Datum::String(s.to_string())
}

#[test]
fn test_gitdis_add_repo() {
    let settings = GitdisSettings {
        total_branch_items: 100,
        local_clone_path: "data".to_string(),
    };

    let mut gitdis = Gitdis::new(settings);

    let branch_settings = BranchSettings::new(TEST_URL.to_string(), "main".to_string(), 1000, None);

    let result = gitdis.add_branch(branch_settings.clone(), 0);
    assert_eq!(result, Ok(()));
}

#[test]
fn test_gitdis_services_add_branch() {
    let mut service = GitdisService::new(settings());

    let branch_settings = BranchSettings::new(TEST_URL.to_string(), "main".to_string(), 1000, None);

    let result = service.add_branch(branch_settings.clone(), 1234);

    assert_eq!(
        result.clone(),
        Ok(ServiceAddBranchResponse {
            url: branch_settings.url,
            branch_name: branch_settings.branch_name,
            key: branch_settings.key,
            pull_request_interval_millis: branch_settings.pull_request_interval_millis,
            path_target: branch_settings.path_target,
            create_at: result.unwrap().create_at,
        })
    );
}

#[test]
fn a_branch_is_registered_once() {
    let mut gitdis = Gitdis::new(settings());
    let first = BranchSettings::new(TEST_URL.to_string(), "main".to_string(), 1000, None);
    let same_key = BranchSettings::new(
        "git@github.com:lowcarboncode/gitdis-example-repository.git".to_string(),
        "main".to_string(),
        5,
        None,
    );
    let other = BranchSettings::new(TEST_URL.to_string(), "dev".to_string(), 1000, None);
    assert_eq!(gitdis.add_branch(first.clone(), 1), Ok(()));
    assert_eq!(gitdis.add_branch(same_key, 2), Err(GitdisError::RepoExists));
    assert_eq!(gitdis.add_branch(other.clone(), 3), Ok(()));
    assert_eq!(gitdis.branches.len(), 2);
    let branch = gitdis.get_branch(&first.key).unwrap();
    assert_eq!(branch.get_settings(), &first);
    assert_eq!(branch.get_create_at(), 1);
    assert_eq!(branch.get_data().capacity(), 100);
    assert!(branch.get_data().is_empty());
    assert_eq!(gitdis.get_branch(&other.key).unwrap().get_create_at(), 3);
    assert!(gitdis.get_branch("a/b/c").is_none());
    assert!(gitdis.get_branch_cache("a/b/c").is_none());
    assert!(gitdis.get_branch_cache_mut("a/b/c").is_none());
    assert_eq!(gitdis.get_branch_cache(&first.key).unwrap().len(), 0);
}

#[test]
fn the_handler_of_a_registered_branch() {
    let mut gitdis = Gitdis::new(settings());
    let branch = BranchSettings::new(
        TEST_URL.to_string(),
        "main".to_string(),
        1000,
        Some("default/settings.yml".to_string()),
    );
    gitdis.add_branch(branch.clone(), 1).unwrap();
    let h = gitdis.listen_branch(&branch.key).unwrap();
    assert_eq!(h.clone_path, "data");
    assert_eq!(h.url, TEST_URL);
    assert_eq!(h.branch_name, "main");
    assert_eq!(h.repo_path, "data/gitdis-example-repository");
    assert_eq!(h.target_path, "data/gitdis-example-repository/default/settings.yml");
    assert_eq!(h.pull_request_interval_millis, 1000);
    assert_eq!(gitdis.listen_branch("no/such/branch").err(), Some(GitdisError::BranchNotFound));
    let all = gitdis.listen_all_branches();
    assert_eq!(all.len(), 1);
    assert_eq!(all[0].repo_path, "data/gitdis-example-repository");
    gitdis.update_settings(GitdisSettings {
        total_branch_items: 3,
        local_clone_path: "elsewhere".to_string(),
    });
    let h = gitdis.listen_branch(&branch.key).unwrap();
    assert_eq!(h.repo_path, "elsewhere/gitdis-example-repository");
}

#[test]
fn events_of_all_branches_in_one_stream() {
    let mut gitdis = Gitdis::new(settings());
    let one = BranchSettings::new("h/o/one.git".to_string(), "main".to_string(), 1, None);
    let two = BranchSettings::new("h/o/two.git".to_string(), "main".to_string(), 1, None);
    gitdis.add_branch(one.clone(), 1).unwrap();
    gitdis.add_branch(two.clone(), 2).unwrap();
    store_value(gitdis.get_branch_cache_mut(&two.key).unwrap(), "b", &text("2"));
    store_value(gitdis.get_branch_cache_mut(&one.key).unwrap(), "a", &text("1"));
    store_value(gitdis.get_branch_cache_mut(&two.key).unwrap(), "c", &text("3"));
    assert_eq!(
        gitdis.take_events(),
        vec![
            Event::Insert { key: "a".to_string(), value: text("1") },
            Event::Insert { key: "b".to_string(), value: text("2") },
            Event::Insert { key: "c".to_string(), value: text("3") },
        ]
    );
    assert!(gitdis.take_events().is_empty());
    assert_eq!(gitdis.get_branch_cache(&two.key).unwrap().len(), 2);
}

#[test]
fn a_cache_branch_keeps_its_time() {
    let cache = CacheBranch::new(7, 99);
    assert_eq!(cache.get_create_at(), 99);
    assert_eq!(cache.get_data().capacity(), 7);
    let branch = Branch::new(
        BranchSettings::new("a/b".to_string(), "c".to_string(), 1, None),
        cache,
    );
    assert_eq!(branch.get_create_at(), 99);
    assert_eq!(branch.get_settings().key, "a/b/c");
}

#[test]
fn the_service_reports_its_errors() {
    let mut service = GitdisService::new(settings());
    let branch = BranchSettings::new(TEST_URL.to_string(), "main".to_string(), 1000, None);
    assert!(service.add_branch(branch.clone(), 5).is_ok());
    assert_eq!(
        service.add_branch(branch.clone(), 6),
        Err(GitdisServiceError::RepoAlreadyExists)
    );
    assert_eq!(
        service.listen_branch("x/y/z").err(),
        Some(GitdisServiceError::BranchNotFound)
    );
    assert!(service.listen_branch(&branch.key).is_ok());
    assert_eq!(service.get_data("x/y/z", "k"), Err(GitdisServiceError::BranchNotFound));
    assert_eq!(
        gitdis::services::map_error(GitdisError::Sender(branch)),
        GitdisServiceError::InternalError("the settings could not be sent".to_string())
    );
}

#[test]
fn links_into_a_cache() {
    let mut service = GitdisService::new(settings());
    let branch = BranchSettings::new(TEST_URL.to_string(), "main".to_string(), 1000, None);
    service.add_branch(branch.clone(), 5).unwrap();
    let document = Datum::Object(vec![(
        "services".to_string(),
        Datum::Object(vec![("foo".to_string(), Datum::Bool(true))]),
    )]);
    store_value(
        service.gitdis.get_branch_cache_mut(&branch.key).unwrap(),
        "default.settings",
        &document,
    );
    assert_eq!(
        service.get_data(&branch.key, "default.settings.services.foo"),
        Ok(Some(Datum::Bool(true)))
    );
    assert_eq!(service.get_data(&branch.key, "absent"), Ok(None));
    assert_eq!(service.get_data(&branch.key, "absent(kind)"), Ok(None));
    assert_eq!(
        service.get_data(&branch.key, "default.settings.services(kind)"),
        Ok(Some(text("Object")))
    );
    assert_eq!(
        service.get_data(&branch.key, "default.settings(children)"),
        Ok(Some(Datum::Array(vec![text("default.settings.services")])))
    );
    assert_eq!(service.get_data(&branch.key, "default.settings(absent)"), Ok(None));
    assert_eq!(
        service.get_data(&branch.key, "default.settings.services.foo(kind)"),
        Ok(None)
    );
}

#[test]
fn keys_and_properties_of_links() {
    let parts = |link: &str| GitdisService::get_key_and_property(link);
    assert_eq!(
        parts("service.context.data(resources.1.tags.2)"),
        ("service.context.data".to_string(), Some("resources.1.tags.2".to_string()))
    );
    assert_eq!(parts("plain"), ("plain".to_string(), None));
    assert_eq!(parts("a(b(c)d)"), ("a".to_string(), Some("b(c)d".to_string())));
    assert_eq!(parts("a()"), ("a".to_string(), Some("".to_string())));
    assert_eq!(parts("a(b)c"), ("a".to_string(), Some("b".to_string())));
    assert_eq!(parts("a(b"), ("a(b".to_string(), None));
    assert_eq!(parts("a)b("), ("a)b(".to_string(), None));
    assert_eq!(parts(")"), (")".to_string(), None));
    assert_eq!(parts(""), ("".to_string(), None));
    assert_eq!(parts("(x)"), ("".to_string(), Some("x".to_string())));
}

#[test]
fn requests_and_answers() {
    let request = CreateRepo {
        url: "https://github.com/acme/demo.git".to_string(),
        branch_name: None,
        pull_request_interval_millis: None,
    };
    let settings = request.into_settings().unwrap();
    assert_eq!(settings.branch_name, "main");
    assert_eq!(settings.pull_request_interval_millis, 3000);
    assert_eq!(settings.key, "acme/demo/main");
    assert_eq!(settings.path_target, None);
    let request = CreateRepo {
        url: "git@github.com:acme/demo.git".to_string(),
        branch_name: Some("dev".to_string()),
        pull_request_interval_millis: Some(10),
    };
    let settings = request.into_settings().unwrap();
    assert_eq!(settings.key, "acme/demo/dev");
    assert_eq!(settings.pull_request_interval_millis, 10);
    let request = CreateRepo {
        url: "no-slash".to_string(),
        branch_name: None,
        pull_request_interval_millis: None,
    };
    assert_eq!(request.into_settings(), None);
    let request = CreateRepo {
        url: "a/b".to_string(),
        branch_name: None,
        pull_request_interval_millis: Some(0),
    };
    assert_eq!(request.into_settings(), None);
    let params = ObjectParams {
        owner: "acme".to_string(),
        repo: "demo".to_string(),
        branch: "main".to_string(),
        object_key: "default.settings".to_string(),
    };
    assert_eq!(params.get_branch_key(), "acme/demo/main");
    assert_eq!(MessageError::new("x".to_string()).message, "x");
    assert_eq!(
        resolve_errors(GitdisServiceError::RepoAlreadyExists),
        (409, MessageError { message: "Repo already exists".to_string() })
    );
    assert_eq!(
        resolve_errors(GitdisServiceError::BranchNotFound),
        (404, MessageError { message: "Branch not found".to_string() })
    );
    assert_eq!(
        resolve_errors(GitdisServiceError::InternalError("lock".to_string())),
        (500, MessageError { message: "lock".to_string() })
    );
    let data = ObjectBranchData { key: "acme/demo/main".to_string(), create_at: 7 };
    assert_eq!(data.clone(), data);
}
