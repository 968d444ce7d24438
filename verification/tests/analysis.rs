use composer_lsp::analysis::{
    completion_prefix, completions,
    command_outcome, definition_url, diagnostics, fetch_list, hover_contents, update_diagnostic,
    working_directory, Backend, Command, CommandPlan, Diagnostic, Invocation, QueryError, Severity,
    COMMAND_FAILED, UNRESOLVED,
};
use composer_lsp::composer::{ComposerDependency, ComposerFile};
use composer_lsp::packagist::{get_packages_info, PackageVersion};

const PATH: &str = "file:///srv/project/composer.json";

const MANIFEST: &str = r#"{
    "name": "acme/site",
    "require": {
        "acme/alpha": "^2.0",
        "acme/beta": "^1.0",
        "acme/gamma": "~1.8"
    },
    "require-dev": {
        "acme/delta": "*"
    }
}
"#;

const LOCK: &str = r#"{
    "packages": [
        {"name": "acme/alpha", "version": "v2.1.0"},
        {"name": "acme/beta", "version": "1.9.0"}
    ],
    "packages-dev": []
}"#;

fn answer(name: &str, versions: &[&str]) -> String {
    let releases: Vec<String> = versions
        .iter()
        .map(|v| {
            format!(
                "{{\"name\": \"{}\", \"version\": \"{}\", \"description\": \"{} at {}\", \"homepage\": \"https://example.org/{}\"}}",
                name, v, name, v, v
            )
        })
        .collect();
    format!("{{\"packages\": {{\"{}\": [{}]}}}}", name, releases.join(", "))
}

const RELEASES: [&str; 7] = ["2.2.1", "2.1.1", "2.1.0", "2.0.0", "1.9.0", "1.8.1", "1.8.0"];

fn file(lock: Option<&str>) -> ComposerFile {
    ComposerFile::parse_from_path(PATH, MANIFEST, lock).unwrap()
}

fn all_answers(file: &ComposerFile) -> Vec<Option<String>> {
    fetch_list(file).iter().map(|d| Some(answer(&d.name, &RELEASES))).collect()
}

fn warning(line: u32, version: &str) -> Diagnostic {
    Diagnostic {
        line,
        severity: Severity::Warning,
        message: format!("Update available: {:?}", version),
    }
}

#[test]
fn every_declared_dependency_is_asked_for() {
    let names: Vec<String> = fetch_list(&file(None)).into_iter().map(|d| d.name).collect();
    assert_eq!(vec!["acme/alpha", "acme/beta", "acme/gamma", "acme/delta"], names);
}

#[test]
fn a_save_reports_each_dependency_that_can_be_updated() {
    let file = file(Some(LOCK));
    let bodies = all_answers(&file);
    let mut backend = Backend::new();
    let found = backend.on_save(file, bodies);
    assert_eq!(
        vec![warning(3, "2.2.1"), warning(5, "1.8.1"), warning(8, "2.2.1")],
        found
    );
}

#[test]
fn without_a_lock_file_every_dependency_is_resolved_as_not_installed() {
    let file = file(None);
    let bodies = all_answers(&file);
    let mut backend = Backend::new();
    let found = backend.on_save(file, bodies);
    assert_eq!(
        vec![warning(3, "2.2.1"), warning(4, "1.9.0"), warning(5, "1.8.1"), warning(8, "2.2.1")],
        found
    );
}

#[test]
fn a_failed_request_silences_only_its_own_dependency() {
    let file = file(None);
    let mut bodies = all_answers(&file);
    bodies[1] = None;
    let mut backend = Backend::new();
    let found = backend.on_save(file, bodies);
    assert_eq!(vec![warning(3, "2.2.1"), warning(5, "1.8.1"), warning(8, "2.2.1")], found);
}

#[test]
fn an_answer_without_data_silences_only_its_own_dependency() {
    let file = file(None);
    let mut bodies = all_answers(&file);
    bodies[0] = Some("{\"status\": \"error\"}".to_string());
    bodies[3] = Some("<html>".to_string());
    let mut backend = Backend::new();
    let found = backend.on_save(file, bodies);
    assert_eq!(vec![warning(4, "1.9.0"), warning(5, "1.8.1")], found);
}

#[test]
fn a_save_replaces_the_diagnostics_of_the_save_before() {
    let mut backend = Backend::new();
    let first = file(None);
    let bodies = all_answers(&first);
    assert_eq!(4, backend.on_save(first, bodies).len());
    let second = ComposerFile::parse_from_path(PATH, "{\"require\": {\n\"acme/alpha\": \"^2.0\"\n}}", None).unwrap();
    let bodies = all_answers(&second);
    assert_eq!(vec![warning(1, "2.2.1")], backend.on_save(second, bodies));
    assert_eq!(Err(QueryError::UnknownLine(3)), backend.dependency_at(3));
    assert_eq!(Ok("acme/alpha".to_string()), backend.dependency_at(1));
}

#[test]
fn dependencies_without_a_name_or_without_data_are_passed_over() {
    let file = ComposerFile::new(
        PATH.to_string(),
        vec![
            ComposerDependency { name: "".to_string(), version: "*".to_string(), line: 1 },
            ComposerDependency { name: "acme/alpha".to_string(), version: "*".to_string(), line: 2 },
            ComposerDependency { name: "acme/none".to_string(), version: "*".to_string(), line: 3 },
        ],
        vec![],
        None,
        std::collections::HashMap::new(),
    );
    let registry = get_packages_info(
        fetch_list(&file),
        vec![Some(answer("", &RELEASES)), Some(answer("acme/alpha", &RELEASES)), None],
    );
    assert_eq!(vec![warning(2, "2.2.1")], diagnostics(&file, &registry));
}

#[test]
fn the_message_carries_the_version_in_quotes() {
    let dep = ComposerDependency { name: "a/b".to_string(), version: "^1.0".to_string(), line: 7 };
    let d = update_diagnostic(&dep, "1.2.3");
    assert_eq!("Update available: \"1.2.3\"", d.message);
    assert_eq!(7, d.line);
    assert_eq!(Severity::Warning, d.severity);
}

fn saved(lock: Option<&str>) -> Backend {
    let file = file(lock);
    let bodies = all_answers(&file);
    let mut backend = Backend::new();
    backend.on_save(file, bodies);
    backend
}

#[test]
fn hover_shows_the_installed_release() {
    let backend = saved(Some(LOCK));
    assert_eq!(Ok("acme/alpha".to_string()), backend.dependency_at(3));
    let body = answer("acme/alpha", &RELEASES);
    let hover = backend.on_hover(3, Some(body.as_str())).unwrap();
    assert_eq!(3, hover.line);
    assert_eq!(
        vec!["acme/alpha at 2.1.0", "", "Homepage: https://example.org/2.1.0", ""],
        hover.contents
    );
}

#[test]
fn hover_falls_back_to_the_first_release() {
    let backend = saved(Some(LOCK));
    let body = answer("acme/gamma", &RELEASES);
    let hover = backend.on_hover(5, Some(body.as_str())).unwrap();
    assert_eq!(
        vec!["acme/gamma at 2.2.1", "", "Homepage: https://example.org/2.2.1", ""],
        hover.contents
    );
    let body = answer("acme/alpha", &["3.0.0", "2.9.0"]);
    let hover = backend.on_hover(3, Some(body.as_str())).unwrap();
    assert_eq!(
        vec!["acme/alpha at 3.0.0", "", "Homepage: https://example.org/3.0.0", ""],
        hover.contents
    );
}

#[test]
fn hover_matches_release_versions_after_normalizing() {
    let backend = saved(Some(LOCK));
    let body = answer("acme/alpha", &["v2.2.0", "v2.1.0", "v2.0.0"]);
    let hover = backend.on_hover(3, Some(body.as_str())).unwrap();
    assert_eq!("acme/alpha at v2.1.0", hover.contents[0]);
}

#[test]
fn hover_reports_what_is_missing() {
    assert_eq!(Err(QueryError::NoDocument), Backend::new().on_hover(3, None));
    assert_eq!(Err(QueryError::NoDocument), Backend::new().dependency_at(3));
    let backend = saved(None);
    let body = answer("acme/alpha", &RELEASES);
    assert_eq!(Err(QueryError::UnknownLine(0)), backend.on_hover(0, Some(body.as_str())));
    assert_eq!(Err(QueryError::UnknownLine(7)), backend.on_hover(7, Some(body.as_str())));
    assert_eq!(Err(QueryError::NoRegistryData("acme/alpha".to_string())), backend.on_hover(3, None));
    assert_eq!(
        Err(QueryError::NoRegistryData("acme/alpha".to_string())),
        backend.on_hover(3, Some("{}"))
    );
    assert_eq!(
        Err(QueryError::NoUsableRelease("acme/alpha".to_string())),
        backend.on_hover(3, Some("{\"packages\": {\"acme/alpha\": []}}"))
    );
    assert_eq!(
        Err(QueryError::NoUsableRelease("acme/alpha".to_string())),
        backend.on_hover(3, Some("{\"packages\": {\"acme/alpha\": [{\"version\": \"1.0.0\"}]}}"))
    );
}

fn described(description: Option<&str>, homepage: Option<&str>, url: Option<&str>) -> PackageVersion {
    PackageVersion {
        name: None,
        description: description.map(|s| s.to_string()),
        keywords: None,
        homepage: homepage.map(|s| s.to_string()),
        version: None,
        version_normalized: None,
        license: None,
        authors: None,
        packagist_url: url.map(|s| s.to_string()),
    }
}

#[test]
fn hover_text_takes_from_the_first_release_what_the_selected_one_lacks() {
    let first = described(Some("first"), Some("https://first"), Some("https://u/first"));
    let full = described(Some("text"), Some("https://page"), Some("https://u/full"));
    let bare = described(None, None, None);
    assert_eq!(vec!["text", "", "Homepage: https://page", ""], hover_contents(&full, &first));
    assert_eq!(vec!["first", "https://first"], hover_contents(&bare, &first));
    assert_eq!(
        vec!["first", "Homepage: https://page", ""],
        hover_contents(&described(None, Some("https://page"), None), &first)
    );
    assert_eq!(
        vec!["text", "", "https://first"],
        hover_contents(&described(Some("text"), None, None), &first)
    );
    assert_eq!(Vec::<String>::new(), hover_contents(&bare, &bare));
    assert_eq!(Some("https://u/full".to_string()), definition_url(&full, &first));
    assert_eq!(Some("https://u/first".to_string()), definition_url(&bare, &first));
    assert_eq!(None, definition_url(&bare, &bare));
}

#[test]
fn definition_is_the_page_of_the_package() {
    let backend = saved(Some(LOCK));
    let body = answer("acme/beta", &RELEASES);
    assert_eq!(
        Ok("https://packagist.org/packages/acme/beta".to_string()),
        backend.goto_definition(4, Some(body.as_str()))
    );
    assert_eq!(Err(QueryError::UnknownLine(1)), backend.goto_definition(1, Some(body.as_str())));
    assert_eq!(
        Err(QueryError::NoRegistryData("acme/beta".to_string())),
        backend.goto_definition(4, None)
    );
    assert_eq!(
        Err(QueryError::NoUsableRelease("acme/beta".to_string())),
        backend.goto_definition(4, Some("{\"packages\": {\"acme/beta\": [3]}}"))
    );
    assert_eq!(Err(QueryError::NoDocument), Backend::new().goto_definition(4, None));
}

#[test]
fn code_actions_offer_install_without_a_lock_file_and_update_with_one() {
    assert_eq!(None, Backend::new().on_code_action(3, 3));
    let unlocked = saved(None);
    assert_eq!(
        Some(vec![Command {
            title: "Install all packages".to_string(),
            command: "install".to_string(),
            arguments: vec![],
        }]),
        unlocked.on_code_action(3, 3)
    );
    let locked = saved(Some(LOCK));
    assert_eq!(
        Some(vec![Command {
            title: "Update package".to_string(),
            command: "update".to_string(),
            arguments: vec!["acme/gamma".to_string()],
        }]),
        locked.on_code_action(5, 5)
    );
    assert_eq!(None, locked.on_code_action(3, 4));
    assert_eq!(None, locked.on_code_action(0, 0));
}

#[test]
fn commands_are_planned_from_the_saved_manifest() {
    assert_eq!(CommandPlan::Nothing, Backend::new().on_execute_command("update", Some("a/b")));
    assert_eq!(CommandPlan::Nothing, Backend::new().on_execute_command("unknown", None));
    let backend = saved(Some(LOCK));
    assert_eq!(
        CommandPlan::Run(Invocation {
            program: "composer".to_string(),
            arguments: vec![
                "--working-dir=/srv/project".to_string(),
                "update".to_string(),
                "acme/alpha".to_string()
            ],
            done: "Composer package acme/alpha was updated.".to_string(),
        }),
        backend.on_execute_command("update", Some("acme/alpha"))
    );
    assert_eq!(CommandPlan::Nothing, backend.on_execute_command("update", None));
    assert_eq!(
        CommandPlan::Run(Invocation {
            program: "composer".to_string(),
            arguments: vec!["--working-dir=/srv/project".to_string(), "install".to_string()],
            done: "Composer packages were installed.".to_string(),
        }),
        backend.on_execute_command("install", None)
    );
    assert_eq!(CommandPlan::MethodNotFound, backend.on_execute_command("remove", Some("a/b")));
}

#[test]
fn the_working_directory_is_the_directory_of_the_manifest() {
    assert_eq!("/srv/project", working_directory("file:///srv/project/composer.json"));
    assert_eq!("/srv/project", working_directory("/srv/project/composer.json"));
    assert_eq!("file:/", working_directory("file://composer.json"));
    assert_eq!("x.json", working_directory("file://x.json"));
    assert_eq!("/srv/file://x", working_directory("/srv/file://x/composer.json"));
    assert_eq!("", working_directory("file:///composer.json"));
    assert_eq!("", working_directory(""));
}

#[test]
fn the_outcome_of_a_run_is_told_from_its_status_and_its_errors() {
    let invocation = Invocation {
        program: "composer".to_string(),
        arguments: vec![],
        done: "Composer packages were installed.".to_string(),
    };
    let failed = command_outcome(&invocation, false, Some(""));
    assert_eq!(Some("Composer command failed.".to_string()), failed.message);
    assert!(failed.failed);
    let unreadable = command_outcome(&invocation, true, None);
    assert_eq!(None, unreadable.message);
    assert!(unreadable.failed);
    let text = format!("Loading...\n{}.\n", UNRESOLVED);
    let unresolved = command_outcome(&invocation, true, Some(text.as_str()));
    assert_eq!(Some("Composer dependencies could not be resolved.".to_string()), unresolved.message);
    assert!(!unresolved.failed);
    let done = command_outcome(&invocation, true, Some("Loading...\nNothing to install\n"));
    assert_eq!(Some("Composer packages were installed.".to_string()), done.message);
    assert!(!done.failed);
    assert_eq!(400, COMMAND_FAILED);
}

#[test]
fn the_saved_manifest_can_be_read_back() {
    assert!(Backend::new().composer_file().is_none());
    let backend = saved(Some(LOCK));
    let file = backend.composer_file().unwrap();
    assert_eq!(PATH, file.path);
    assert_eq!(3, file.dependencies.len());
}

#[test]
fn the_name_being_typed_follows_the_last_quote() {
    assert_eq!(Some("sym".to_string()), completion_prefix("        \"sym"));
    assert_eq!(Some("symfony/con".to_string()), completion_prefix("    \"a/b\": \"1\", \"symfony/con\n"));
    assert_eq!(Some("ab".to_string()), completion_prefix("\" a b "));
    assert_eq!(None, completion_prefix("        \"s"));
    assert_eq!(None, completion_prefix("        \""));
    assert_eq!(None, completion_prefix("    symfony"));
    assert_eq!(None, completion_prefix(""));
    assert_eq!(None, completion_prefix("\"symfony\""));
}

#[test]
fn names_are_completed_in_order() {
    let names = vec![
        "symfony/console".to_string(),
        "acme/alpha".to_string(),
        "symfony/yaml".to_string(),
        "sym".to_string(),
        "sy".to_string(),
    ];
    assert_eq!(vec!["symfony/console", "symfony/yaml", "sym"], completions(&names, "sym"));
    assert_eq!(vec!["acme/alpha"], completions(&names, "acme/alpha"));
    assert_eq!(Vec::<String>::new(), completions(&names, "zend"));
    assert_eq!(5, completions(&names, "").len());
}
