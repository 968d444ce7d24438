use composer_lsp::packagist::{
    get_all_packages, PACKAGIST_LIST_URL,
    api_url, check_for_package_update, get_package_info, package_url, resolve_update, Package,
    PackageVersion,
};

fn release(version: &str, normalized: &str) -> PackageVersion {
    PackageVersion {
        name: Some("Test".to_string()),
        description: None,
        keywords: None,
        homepage: None,
        version: Some(version.to_string()),
        version_normalized: Some(normalized.to_string()),
        license: None,
        authors: None,
        packagist_url: None,
    }
}

fn get_package_mock() -> Package {
    let package_data = Package {
        name: "Test".to_string(),
        versions: vec![
            release("2.2.1", "221"),
            release("2.1.1", "211"),
            release("2.1.0", "210"),
            release("2.0.0", "200"),
            release("1.9.0", "190"),
            release("1.8.1", "181"),
            release("1.8.0", "180"),
        ],
    };

    package_data
}

#[test]
fn it_can_get_a_correct_caret_version() {
    assert_eq!(
        Some("1.9.0".to_string()),
        check_for_package_update(&get_package_mock(), "^1.0".to_string(), "".to_string())
    );
}

#[test]
fn it_can_get_a_correct_higher_version() {
    assert_eq!(
        Some("2.2.1".to_string()),
        check_for_package_update(&get_package_mock(), ">2.0".to_string(), "".to_string())
    );
}

#[test]
fn it_can_get_a_correct_higher_or_equal_version() {
    assert_eq!(
        Some("2.2.1".to_string()),
        check_for_package_update(&get_package_mock(), ">=2.0".to_string(), "".to_string())
    );
}

#[test]
fn it_can_get_a_correct_lower_or_equal_version() {
    assert_eq!(
        Some("2.0.0".to_string()),
        check_for_package_update(&get_package_mock(), "<=2.0".to_string(), "".to_string())
    );
}

#[test]
fn it_can_get_a_correct_lower_version() {
    assert_eq!(
        Some("2.1.1".to_string()),
        check_for_package_update(&get_package_mock(), "<=2.1".to_string(), "".to_string())
    );
}

#[test]
fn it_can_get_a_correct_latest_version() {
    assert_eq!(
        Some("2.2.1".to_string()),
        check_for_package_update(&get_package_mock(), "*".to_string(), "".to_string())
    );
}

#[test]
fn it_can_get_a_correct_tilde_version() {
    assert_eq!(
        Some("1.8.1".to_string()),
        check_for_package_update(&get_package_mock(), "~1.8".to_string(), "".to_string())
    );
}

#[test]
fn it_can_get_a_correct_latest_version_with_installed_lower_version() {
    assert_eq!(
        Some("2.2.1".to_string()),
        check_for_package_update(&get_package_mock(), "^2.0".to_string(), "2.1.0".to_string())
    );
}

#[test]
fn it_wont_get_anything_if_latest_is_installed_and_major_is_lower() {
    assert_eq!(
        None,
        check_for_package_update(&get_package_mock(), "^1.0".to_string(), "2.2.0".to_string())
    );
}

#[test]
fn it_wont_get_anything_if_latest_is_installed() {
    assert_eq!(
        None,
        check_for_package_update(&get_package_mock(), "^2.0".to_string(), "2.2.1".to_string())
    );
}

#[test]
fn alternatives_are_joined_by_two_bars() {
    let releases = get_package_mock().versions;
    assert_eq!(
        Some("2.2.1".to_string()),
        resolve_update(&releases, "^2.1.0 || ^2.2.0", Some("2.1.0"))
    );
    assert_eq!(Some("1.8.1".to_string()), resolve_update(&releases, "~1.8 || ~1.7", None));
    assert_eq!(Some("2.0.0".to_string()), resolve_update(&releases, "~1.8||=2.0.0", None));
    assert_eq!(None, resolve_update(&releases, "~1.8 | ~1.7", None));
    assert_eq!(None, resolve_update(&releases, "~1.8 ||", None));
    assert_eq!(None, resolve_update(&releases, "|| ~1.8", None));
    assert_eq!(None, resolve_update(&releases, "~1.8 |||| ~1.7", None));
}

#[test]
fn terms_between_spaces_must_all_hold() {
    let releases = get_package_mock().versions;
    assert_eq!(Some("2.1.1".to_string()), resolve_update(&releases, ">=2.0 <2.2", None));
    assert_eq!(Some("1.9.0".to_string()), resolve_update(&releases, "  >1.8.1   <2.0.0 ", None));
    assert_eq!(None, resolve_update(&releases, ">=2.0 <1.0", None));
    assert_eq!(Some("2.1.1".to_string()), resolve_update(&releases, ">=2.0,<2.2", None));
    assert_eq!(
        Some("2.1.1".to_string()),
        resolve_update(&releases, "<1.0 || >=2.0 <2.2 || ~1.8", None)
    );
}

#[test]
fn a_constraint_that_cannot_be_read_gives_nothing() {
    let releases = get_package_mock().versions;
    assert_eq!(None, resolve_update(&releases, "", None));
    assert_eq!(None, resolve_update(&releases, "not a constraint", None));
    assert_eq!(None, resolve_update(&releases, "^2.0 @", None));
    assert_eq!(None, resolve_update(&releases, ">= 2.0", None));
    assert_eq!(None, resolve_update(&releases, "dev-master", Some("2.0.0")));
}

#[test]
fn releases_that_do_not_parse_are_passed_over() {
    let mut releases = vec![release("dev-master", ""), release("v3.0.0", ""), release("2.0", "")];
    releases.push(PackageVersion { version: None, ..release("9.9.9", "") });
    releases.extend(get_package_mock().versions);
    assert_eq!(Some("2.2.1".to_string()), resolve_update(&releases, "*", None));
    assert_eq!(Some("2.2.1".to_string()), resolve_update(&releases, "*", Some("1.0.0")));
    assert_eq!(None, resolve_update(&releases[..4].to_vec(), "*", None));
}

#[test]
fn without_an_installed_version_the_first_match_in_order_is_taken() {
    let releases = vec![release("1.8.0", ""), release("2.2.1", ""), release("1.9.0", "")];
    assert_eq!(Some("1.8.0".to_string()), resolve_update(&releases, "*", None));
    assert_eq!(Some("2.2.1".to_string()), resolve_update(&releases, ">1.8", None));
}

#[test]
fn over_an_installed_version_the_highest_match_is_taken_whatever_the_order() {
    let releases = vec![
        release("1.8.0", ""),
        release("2.9.0", ""),
        release("2.10.0", ""),
        release("2.2.1", ""),
        release("10.0.0", ""),
    ];
    assert_eq!(Some("10.0.0".to_string()), resolve_update(&releases, "*", Some("2.9.0")));
    assert_eq!(Some("2.10.0".to_string()), resolve_update(&releases, "^2.0", Some("2.9.0")));
    assert_eq!(None, resolve_update(&releases, "^2.0", Some("2.10.0")));
    assert_eq!(Some("2.10.0".to_string()), resolve_update(&releases, "^2.0", Some("1.0.0")));
    assert_eq!(None, resolve_update(&releases, "^1.0", Some("1.8.0")));
}

#[test]
fn an_installed_version_that_does_not_parse_gives_nothing() {
    let releases = get_package_mock().versions;
    assert_eq!(None, resolve_update(&releases, "*", Some("dev-master")));
    assert_eq!(None, resolve_update(&releases, "*", Some("2.1")));
    assert_eq!(None, resolve_update(&releases, "*", Some("")));
    assert_eq!(
        Some("2.2.1".to_string()),
        check_for_package_update(&get_package_mock(), "*".to_string(), "".to_string())
    );
}

#[test]
fn pre_releases_come_before_their_release() {
    let releases = vec![
        release("2.0.0-beta.2", ""),
        release("2.0.0-beta.11", ""),
        release("2.0.0-alpha", ""),
        release("2.0.0-rc.1", ""),
        release("1.9.0", ""),
    ];
    assert_eq!(
        Some("2.0.0-rc.1".to_string()),
        resolve_update(&releases, ">=2.0.0-alpha", Some("2.0.0-beta.2"))
    );
    assert_eq!(
        Some("2.0.0-beta.11".to_string()),
        resolve_update(&releases[..3].to_vec(), ">=2.0.0-alpha", Some("2.0.0-beta.2"))
    );
    assert_eq!(None, resolve_update(&releases, ">=2.0.0-alpha", Some("2.0.0")));
    assert_eq!(None, resolve_update(&releases, ">=2.0.0-alpha", Some("2.0.0-rc.1")));
    assert_eq!(
        Some("2.0.0-rc.1".to_string()),
        resolve_update(&releases, ">=2.0.0-alpha", Some("1.9.0"))
    );
}

#[test]
fn of_equal_precedence_the_first_is_taken() {
    let releases = vec![release("1.0.0", ""), release("2.0.0+b", ""), release("2.0.0+a", "")];
    assert_eq!(Some("2.0.0+b".to_string()), resolve_update(&releases, "*", Some("1.0.0")));
    assert_eq!(None, resolve_update(&releases, "*", Some("2.0.0+zzz")));
}

#[test]
fn an_empty_release_list_gives_nothing() {
    let package = Package::new("Test".to_string(), vec![]);
    assert_eq!("Test", package.name);
    assert_eq!(None, check_for_package_update(&package, "*".to_string(), "".to_string()));
    assert_eq!(None, check_for_package_update(&package, "*".to_string(), "1.0.0".to_string()));
}

#[test]
fn registry_addresses() {
    assert_eq!("https://repo.packagist.org/p2/vendor/pkg.json", api_url("vendor/pkg"));
    assert_eq!("https://packagist.org/packages/vendor/pkg", package_url("vendor/pkg"));
    assert_eq!("https://packagist.org/packages/vendor/pkg", package_url("\"vendor/pkg\""));
}

const ANSWER: &str = r#"{
  "minified": "composer/2.0",
  "packages": {
    "vendor/pkg": [
      {
        "name": "vendor/pkg",
        "description": "A package",
        "keywords": ["one", "two"],
        "homepage": "https://example.org",
        "version": "2.3.1",
        "version_normalized": "2.3.1.0",
        "license": ["MIT"],
        "authors": [{"name": "Ann", "email": "ann@example.org", "role": "lead"}, {"homepage": "https://b.example.org"}]
      },
      {
        "version": "v2.3.0",
        "description": null,
        "keywords": "none",
        "license": ["MIT", 3],
        "authors": [{"name": "Ann"}, "Bob"]
      },
      "not a release",
      {}
    ]
  }
}"#;

#[test]
fn a_registry_answer_is_decoded_field_by_field() {
    let package = get_package_info("vendor/pkg".to_string(), ANSWER).unwrap();
    assert_eq!("vendor/pkg", package.name);
    assert_eq!(3, package.versions.len());

    let first = &package.versions[0];
    assert_eq!(Some("vendor/pkg".to_string()), first.name);
    assert_eq!(Some("A package".to_string()), first.description);
    assert_eq!(Some(vec!["one".to_string(), "two".to_string()]), first.keywords);
    assert_eq!(Some("https://example.org".to_string()), first.homepage);
    assert_eq!(Some("2.3.1".to_string()), first.version);
    assert_eq!(Some("2.3.1.0".to_string()), first.version_normalized);
    assert_eq!(Some(vec!["MIT".to_string()]), first.license);
    let authors = first.authors.as_ref().unwrap();
    assert_eq!(2, authors.len());
    assert_eq!(Some("Ann".to_string()), authors[0].name);
    assert_eq!(Some("ann@example.org".to_string()), authors[0].email);
    assert_eq!(None, authors[0].homepage);
    assert_eq!(Some("lead".to_string()), authors[0].role);
    assert_eq!(None, authors[1].name);
    assert_eq!(Some("https://b.example.org".to_string()), authors[1].homepage);
    assert_eq!(Some("https://packagist.org/packages/vendor/pkg".to_string()), first.packagist_url);

    let second = &package.versions[1];
    assert_eq!(Some("v2.3.0".to_string()), second.version);
    assert_eq!(None, second.name);
    assert_eq!(None, second.description);
    assert_eq!(None, second.keywords);
    assert_eq!(None, second.license);
    assert_eq!(None, second.authors);
    assert_eq!(Some("https://packagist.org/packages/vendor/pkg".to_string()), second.packagist_url);

    let third = &package.versions[2];
    assert_eq!(None, third.version);
    assert_eq!(Some("https://packagist.org/packages/vendor/pkg".to_string()), third.packagist_url);
}

#[test]
fn an_answer_without_the_package_gives_nothing() {
    assert!(get_package_info("other/pkg".to_string(), ANSWER).is_none());
    assert!(get_package_info("vendor/pkg".to_string(), "").is_none());
    assert!(get_package_info("vendor/pkg".to_string(), "null").is_none());
    assert!(get_package_info("vendor/pkg".to_string(), "[]").is_none());
    assert!(get_package_info("vendor/pkg".to_string(), "{\"packages\": []}").is_none());
    assert!(get_package_info("vendor/pkg".to_string(), "{\"packages\": {\"vendor/pkg\": {}}}").is_none());
    assert!(get_package_info("vendor/pkg".to_string(), "{\"status\": \"error\"}").is_none());
    let empty = get_package_info("vendor/pkg".to_string(), "{\"packages\": {\"vendor/pkg\": []}}").unwrap();
    assert_eq!(0, empty.versions.len());
}

#[test]
fn the_list_of_all_packages_is_read_from_its_answer() {
    assert_eq!(
        vec!["acme/alpha", "acme/beta"],
        get_all_packages("{\"packageNames\": [\"acme/alpha\", \"acme/beta\"]}")
    );
    assert_eq!(Vec::<String>::new(), get_all_packages("{\"packageNames\": [\"acme/alpha\", 3]}"));
    assert_eq!(Vec::<String>::new(), get_all_packages("{\"names\": [\"acme/alpha\"]}"));
    assert_eq!(Vec::<String>::new(), get_all_packages("not json"));
    assert_eq!("https://packagist.org/packages/list.json", PACKAGIST_LIST_URL);
}
