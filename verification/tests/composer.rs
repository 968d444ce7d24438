use composer_lsp::composer::{
    lock_file_path, normalize_version, strip_quotes, ComposerFile, ComposerLockFile,
};

const MANIFEST: &str = r#"{
    "name": "drupal/recommended-project",
    "description": "Project template for Drupal 9 projects with a relocated document root",
    "type": "project",
    "license": "GPL-2.0-or-later",
    "homepage": "https://www.drupal.org/project/drupal",
    "support": {
        "docs": "https://www.drupal.org/docs/user_guide/en/index.html",
        "chat": "https://www.drupal.org/node/314178"
    },
    "repositories": [
        {
            "type": "composer",
            "url": "https://packages.drupal.org/8"
        }
    ],
    "require": {
        "composer/installers": "^2.0",
        "drupal/core-recommended": "^9.4",
        "fake/dependency": "^8.0"
    },
    "require-dev": {
        "drupal/core-dev": "^9.4",
        "phpunit/phpunit": "^9.5",
        "fake/dependency": "^8.0"
    },
    "minimum-stability": "stable"
}
"#;

const PATH: &str = "file:///srv/project/composer.json";

fn lock_text(packages: usize) -> String {
    let mut entries: Vec<String> = Vec::new();
    for i in 0..packages {
        entries.push(format!(
            "{{\"name\": \"vendor/package-{}\", \"version\": \"v1.{}.0\", \"type\": \"library\"}}",
            i, i
        ));
    }
    format!(
        "{{\"_readme\": [\"generated\"], \"content-hash\": \"abc\", \"packages\": [{}], \"packages-dev\": []}}",
        entries.join(", ")
    )
}

fn parsed() -> ComposerFile {
    let lock = lock_text(83);
    ComposerFile::parse_from_path(PATH, MANIFEST, Some(lock.as_str())).unwrap()
}

#[test]
fn it_can_parse_a_valid_composer_json_file() {
    let lock = lock_text(83);
    let parsed_contents = ComposerFile::parse_from_path(PATH, MANIFEST, Some(lock.as_str()));

    assert_ne!(None, parsed_contents);
}

#[test]
fn it_can_parse_required_dependencies() {
    let parsed_contents = parsed();

    assert_eq!(3, parsed_contents.dependencies.len());
}

#[test]
fn it_can_parse_required_dev_dependencies() {
    let parsed_contents = parsed();

    assert_eq!(3, parsed_contents.dev_dependencies.len());
}

#[test]
fn it_can_parse_a_valid_composer_lock_file() {
    let composer_file = parsed();

    assert_eq!(83, composer_file.lock.unwrap().versions.len());
}

#[test]
fn it_can_get_the_correct_dependency_line_number() {
    let line_number =
        ComposerFile::get_line_num(MANIFEST, "require", "composer/installers").unwrap();

    assert_eq!(18, line_number);
}

#[test]
fn it_can_get_the_correct_dev_dependency_line_number() {
    let line_number =
        ComposerFile::get_line_num(MANIFEST, "require-dev", "fake/dependency").unwrap();

    assert_eq!(25, line_number);
}

#[test]
fn it_can_get_the_correct_dependency_line_number_with_same_name() {
    let required_dev_line_number =
        ComposerFile::get_line_num(MANIFEST, "require-dev", "fake/dependency").unwrap();

    let required_line_number =
        ComposerFile::get_line_num(MANIFEST, "require", "fake/dependency").unwrap();

    assert_eq!(25, required_dev_line_number);
    assert_eq!(20, required_line_number);
}

#[test]
fn dependencies_carry_zero_based_lines_and_constraints() {
    let file = parsed();
    let installers = file
        .dependencies
        .iter()
        .find(|d| d.name == "composer/installers")
        .unwrap();
    assert_eq!(17, installers.line);
    assert_eq!("^2.0", installers.version);
    let phpunit = file
        .dev_dependencies
        .iter()
        .find(|d| d.name == "phpunit/phpunit")
        .unwrap();
    assert_eq!(23, phpunit.line);
    assert_eq!("^9.5", phpunit.version);
}

#[test]
fn line_index_maps_each_located_line_to_its_name() {
    let file = parsed();
    assert_eq!(6, file.dependencies_by_line.len());
    assert_eq!(Some(&"composer/installers".to_string()), file.dependencies_by_line.get(&17));
    assert_eq!(Some(&"fake/dependency".to_string()), file.dependencies_by_line.get(&19));
    assert_eq!(Some(&"fake/dependency".to_string()), file.dependencies_by_line.get(&24));
    assert_eq!(None, file.dependencies_by_line.get(&16));
    assert_eq!(None, file.dependencies_by_line.get(&20));
}

#[test]
fn parsing_twice_gives_the_same_manifest() {
    let lock = lock_text(3);
    let first = ComposerFile::parse_from_path(PATH, MANIFEST, Some(lock.as_str()));
    let second = ComposerFile::parse_from_path(PATH, MANIFEST, Some(lock.as_str()));
    assert_eq!(first, second);
}

#[test]
fn a_path_that_names_no_manifest_is_refused() {
    assert_eq!(None, ComposerFile::parse_from_path("file:///srv/project/package.json", MANIFEST, None));
    assert_eq!(None, ComposerFile::parse_from_path("file:///srv/project/composer.lock", MANIFEST, None));
}

#[test]
fn text_that_is_not_json_is_refused() {
    assert_eq!(None, ComposerFile::parse_from_path(PATH, "{ \"require\": ", None));
    assert_eq!(None, ComposerFile::parse_from_path(PATH, "", None));
}

#[test]
fn missing_blocks_give_empty_lists() {
    let file = ComposerFile::parse_from_path(PATH, "{\n  \"name\": \"a/b\"\n}\n", None).unwrap();
    assert_eq!(0, file.dependencies.len());
    assert_eq!(0, file.dev_dependencies.len());
    assert_eq!(0, file.dependencies_by_line.len());
    assert_eq!(None, file.lock);
}

#[test]
fn json_of_another_shape_gives_empty_lists() {
    let array = ComposerFile::parse_from_path(PATH, "[1, 2, 3]", None).unwrap();
    assert_eq!(0, array.dependencies.len());
    let wrong = "{\n  \"require\": {\n    \"a/b\": 3\n  },\n  \"require-dev\": {\n    \"c/d\": \"^1.0\"\n  }\n}";
    let file = ComposerFile::parse_from_path(PATH, wrong, None).unwrap();
    assert_eq!(0, file.dependencies.len());
    assert_eq!(0, file.dev_dependencies.len());
}

#[test]
fn a_missing_lock_file_is_no_error() {
    let file = ComposerFile::parse_from_path(PATH, MANIFEST, None).unwrap();
    assert_eq!(None, file.lock);
    assert_eq!(3, file.dependencies.len());
}

#[test]
fn a_malformed_lock_file_counts_as_absent() {
    let file = ComposerFile::parse_from_path(PATH, MANIFEST, Some("{ not json")).unwrap();
    assert_eq!(None, file.lock);
    assert_eq!(None, ComposerFile::parse_lock_file("[]"));
    assert_eq!(None, ComposerFile::parse_lock_file("{\"packages\": 3}"));
}

#[test]
fn a_lock_file_without_packages_records_nothing() {
    let lock = ComposerFile::parse_lock_file("{\"content-hash\": \"x\"}").unwrap();
    assert_eq!(0, lock.versions.len());
}

#[test]
fn lock_versions_are_normalized() {
    let lock = ComposerFile::parse_lock_file(
        "{\"packages\": [{\"name\": \"a/b\", \"version\": \"v2.3.1\"}, {\"name\": \"c/d\", \"version\": \"1.0.0\"}, 7, {\"name\": \"e/f\"}]}",
    )
    .unwrap();
    assert_eq!(2, lock.versions.len());
    assert_eq!("2.3.1", lock.get("a/b").unwrap().version);
    assert_eq!("a/b", lock.get("a/b").unwrap().name);
    assert_eq!("1.0.0", lock.get("c/d").unwrap().version);
    assert_eq!(None, lock.get("e/f"));
}

#[test]
fn later_lock_entries_replace_earlier_ones() {
    let lock = ComposerFile::parse_lock_file(
        "{\"packages\": [{\"name\": \"a/b\", \"version\": \"1.0.0\"}, {\"name\": \"c/d\", \"version\": \"3.0.0\"}, {\"name\": \"a/b\", \"version\": \"v1.2.0\"}]}",
    )
    .unwrap();
    assert_eq!(2, lock.versions.len());
    assert_eq!("1.2.0", lock.get("a/b").unwrap().version);
    assert_eq!("3.0.0", lock.get("c/d").unwrap().version);
}

#[test]
fn recording_replaces_what_was_recorded() {
    let mut lock = ComposerLockFile::new();
    lock.record("a/b".to_string(), "1.0.0".to_string());
    lock.record("c/d".to_string(), "2.0.0".to_string());
    lock.record("a/b".to_string(), "1.1.0".to_string());
    assert_eq!(2, lock.versions.len());
    assert_eq!(Some(0), lock.position("a/b"));
    assert_eq!("1.1.0", lock.get("a/b").unwrap().version);
    assert_eq!(None, lock.position("x/y"));
}

#[test]
fn normalizing_strips_quotes_and_one_leading_v() {
    assert_eq!("2.3.1", normalize_version("\"v2.3.1\""));
    assert_eq!("2.3.1", normalize_version("v2.3.1"));
    assert_eq!("2.3.1", normalize_version("2.3.1"));
    assert_eq!("v1.0", normalize_version("vv1.0"));
    assert_eq!("dev-master", normalize_version("'dev-master'"));
    assert_eq!("", normalize_version("\"\""));
    assert_eq!("a/b", strip_quotes("\"a/b\""));
    assert_eq!("ab", strip_quotes("a'\"b"));
}

#[test]
fn the_lock_file_stands_beside_the_manifest() {
    assert_eq!(
        Some("file:///srv/project/composer.lock".to_string()),
        lock_file_path("file:///srv/project/composer.json")
    );
    assert_eq!(
        Some("/srv/composer.json/composer.lock".to_string()),
        lock_file_path("/srv/composer.json/composer.json")
    );
    assert_eq!(None, lock_file_path("/srv/project/composer.json.bak"));
}

#[test]
fn a_nested_block_does_not_end_the_block() {
    let text = "{\n  \"require\": {\n    \"a/b\": \"^1.0\",\n    \"extra\": [\n      {}\n    ],\n    \"c/d\": \"^2.0\"\n  },\n  \"e/f\": \"1\"\n}";
    assert_eq!(Some(3), ComposerFile::get_line_num(text, "require", "a/b"));
    assert_eq!(Some(7), ComposerFile::get_line_num(text, "require", "c/d"));
    assert_eq!(None, ComposerFile::get_line_num(text, "require", "e/f"));
    assert_eq!(None, ComposerFile::get_line_num(text, "require-dev", "a/b"));
}

#[test]
fn brackets_inside_strings_do_not_count() {
    let text = "{\n  \"require\": {\n    \"a/b\": \"}]\",\n    \"c/d\": \"\\\"}\"\n,    \"e/f\": \"1\"\n  }\n}";
    assert_eq!(Some(4), ComposerFile::get_line_num(text, "require", "c/d"));
    assert_eq!(Some(5), ComposerFile::get_line_num(text, "require", "e/f"));
}

#[test]
fn a_name_is_found_only_in_quotes() {
    let text = "{\n  \"require\": {\n    \"a/b-extra\": \"^1.0\",\n    \"a/b\": \"^2.0\"\n  }\n}";
    assert_eq!(Some(4), ComposerFile::get_line_num(text, "require", "a/b"));
}

#[test]
fn a_name_on_the_key_line_is_not_found() {
    let text = "{ \"require\": { \"a/b\": \"^1.0\" } }";
    assert_eq!(None, ComposerFile::get_line_num(text, "require", "a/b"));
    let file = ComposerFile::parse_from_path(PATH, text, None).unwrap();
    assert_eq!(0, file.dependencies.len());
}

#[test]
fn the_first_name_on_a_line_keeps_it() {
    let text = "{\n  \"require\": {\n    \"z/z\": \"1\", \"a/a\": \"2\"\n  },\n  \"require-dev\": {\n    \"b/b\": \"3\"\n  }\n}";
    let file = ComposerFile::parse_from_path(PATH, text, None).unwrap();
    assert_eq!(2, file.dependencies.len());
    assert_eq!(Some(&"a/a".to_string()), file.dependencies_by_line.get(&2));
    assert_eq!(Some(&"b/b".to_string()), file.dependencies_by_line.get(&5));
    assert_eq!(2, file.dependencies_by_line.len());
}

#[test]
fn a_name_declared_twice_in_a_block_counts_once() {
    let text = "{\n  \"require\": {\n    \"a/b\": \"^1.0\",\n    \"c/d\": \"^3.0\",\n    \"a/b\": \"^2.0\"\n  }\n}";
    let file = ComposerFile::parse_from_path(PATH, text, None).unwrap();
    assert_eq!(2, file.dependencies.len());
    let again = file.dependencies.iter().filter(|d| d.name == "a/b").count();
    assert_eq!(1, again);
    let dependency = file.dependencies.iter().find(|d| d.name == "a/b").unwrap();
    assert_eq!("^2.0", dependency.version);
    assert_eq!(2, dependency.line);
}
