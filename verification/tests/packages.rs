//! What the registry and the files of a workspace say of packages.
use version_lens::hover::{build_hover_markdown, npm_package_hover, DocCache, Hover};
use version_lens::json::{parse_json, Json};
use version_lens::links::clickable_url;
use version_lens::manifest::LensFile;
use version_lens::registry::{
    cap_readme, fetch_package_doc, fetch_versions, package_url, parse_license,
    parse_repository_url, read_response, sorted_releases, PackageDoc, Response, NO_README,
    README_CAP,
};
use version_lens::version::Version;
use version_lens::workspace::{
    build_workspace_context, is_workspace_manifest, needs_workspace_context, package_name_version,
    parse_package_name_version, resolve_ref, WorkspaceCache, WorkspaceContext,
};

fn answer(body: &str) -> Option<Response> {
    Some(Response { success: true, body: Some(body.to_string()) })
}

fn texts(versions: &[Version]) -> Vec<String> {
    versions.iter().map(|v| v.to_text()).collect()
}

#[test]
fn json_documents_are_read_with_all_their_values() {
    let document =
        parse_json(r#"{"a": [null, true, 1.5, "x\n", {}], "b": {"c": "d"}}"#).unwrap();
    assert_eq!(
        format!("{:?}", document.get("a").unwrap()),
        r#"Array([Null, Bool(true), Number, Text("x\n"), Object([])])"#
    );
    assert_eq!(document.get("b").unwrap().get_text("c").as_deref(), Some("d"));
    assert!(document.get("c").is_none());
    assert!(document.get_text("a").is_none());
    assert!(Json::Number.get("a").is_none());
    assert!(parse_json("{").is_none());
    assert!(parse_json("").is_none());
}

#[test]
fn packages_have_their_documents_under_their_names() {
    assert_eq!(package_url("@types/node"), "https://registry.npmjs.org/@types/node");
}

#[test]
fn only_a_successful_answer_with_a_document_counts() {
    let body = r#"{"versions": {"1.0.0": {}}}"#;
    assert_eq!(texts(&fetch_versions(&answer(body))), vec!["1.0.0"]);
    assert!(fetch_versions(&None).is_empty());
    assert!(fetch_versions(&Some(Response { success: true, body: None })).is_empty());
    let refused = Some(Response { success: false, body: Some(body.to_string()) });
    assert!(fetch_versions(&refused).is_empty());
    assert!(fetch_versions(&answer("<html>")).is_empty());
    assert!(fetch_versions(&answer("{}")).is_empty());
    assert!(fetch_versions(&answer(r#"{"versions": ["1.0.0"]}"#)).is_empty());
    assert!(read_response(&refused).is_none());
    assert!(fetch_package_doc(&refused).is_none());
    assert!(fetch_package_doc(&answer("[")).is_none());
}

#[test]
fn releases_come_from_the_oldest_to_the_newest() {
    let body = r#"{"versions": {
        "10.0.0": {}, "2.0.0": {}, "2.0.0-beta.1": {}, "oops": {}, "1.10.0": {}, "1.9.9": {},
        "1.9.9+b": {}, "1.9.9+a": {}, "v3.0.0": {}, "1.0": {}
    }}"#;
    assert_eq!(
        texts(&fetch_versions(&answer(body))),
        vec!["1.9.9", "1.9.9+a", "1.9.9+b", "1.10.0", "2.0.0", "10.0.0"]
    );
}

#[test]
fn sorting_keeps_all_releases() {
    let versions = vec![
        Version::new(3, 0, 0),
        Version { pre: "rc".to_string(), ..Version::new(9, 0, 0) },
        Version::new(1, 0, 0),
        Version::new(3, 0, 0),
    ];
    assert_eq!(texts(&sorted_releases(&versions)), vec!["1.0.0", "3.0.0", "3.0.0"]);
    assert!(sorted_releases(&vec![]).is_empty());
}

#[test]
fn documents_describe_their_packages() {
    let body = r##"{
        "dist-tags": {"latest": "19.0.0-rc.1"},
        "description": "A library",
        "homepage": "https://react.dev",
        "repository": {"type": "git", "url": "git+ssh://git@github.com/a/b.git"},
        "license": {"type": "MIT"},
        "readme": "# Hello"
    }"##;
    let doc = fetch_package_doc(&answer(body)).unwrap();
    assert_eq!(doc.latest.unwrap().to_text(), "19.0.0-rc.1");
    assert_eq!(doc.description.as_deref(), Some("A library"));
    assert_eq!(doc.homepage.as_deref(), Some("https://react.dev"));
    assert_eq!(doc.repository.as_deref(), Some("https://github.com/a/b"));
    assert_eq!(doc.license.as_deref(), Some("MIT"));
    assert_eq!(doc.readme.as_deref(), Some("# Hello"));
}

#[test]
fn documents_may_say_nothing() {
    let bodies = [
        "{}".to_string(),
        "[]".to_string(),
        r#"{"dist-tags": {"latest": "new"}, "description": 1, "repository": 2, "license": [], "readme": " \n"}"#
            .to_string(),
        format!(r#"{{"dist-tags": "1.0.0", "repository": {{}}, "license": {{}}, "readme": "{NO_README}"}}"#),
    ];
    for body in bodies {
        let doc = fetch_package_doc(&answer(&body)).unwrap();
        assert!(doc.latest.is_none() && doc.description.is_none() && doc.homepage.is_none());
        assert!(doc.repository.is_none() && doc.license.is_none() && doc.readme.is_none());
    }
}

#[test]
fn addresses_become_links() {
    let expected = [
        ("https://a.b/c.git", Some("https://a.b/c")),
        ("git+git+https://a.b/c.git.git", Some("https://a.b/c")),
        ("http://github.com/u/r", Some("https://github.com/u/r")),
        ("git+ssh://git@github.com/u/r.git", Some("https://github.com/u/r")),
        ("ssh://host:2222/u/r", Some("https://host/u/r")),
        ("ssh://git@host:u/r", Some("https://host/u/r")),
        ("ssh://host/u@v", Some("https://host/u@v")),
        ("git@github.com:u/r", Some("https://github.com/u/r")),
        ("git@github.com:7/r.git", Some("https://github.com/7/r")),
        ("org@github.com:u/r", Some("https://github.com/u/r")),
        ("github.com:u/r", Some("https://github.com/u/r")),
        ("git.example.com:8443/u/r", Some("https://git.example.com:8443/u/r")),
        ("u@git.example.com:8443/u/r", Some("https://git.example.com:8443/u/r")),
        ("host:8443", Some("https://host/8443")),
        ("git@host/u/r", Some("https://host/u/r")),
        ("HTTPS://github.com/u/r", Some("https://github.com/u/r")),
        ("GIT+SSH://git@github.com/u/r.git", Some("https://github.com/u/r")),
        (" \thttps://github.com/u/r\n", Some("https://github.com/u/r")),
        ("git:github.com/u/r", Some("https://github.com/u/r")),
        ("https:/github.com/u/r", Some("https://github.com/u/r")),
        ("//github.com/u/r", Some("https://github.com/u/r")),
        ("svn://host/u/r", Some("https://host/u/r")),
        ("GitHub:u/r", Some("https://github.com/u/r")),
        ("https://host/a b", Some("https://host/a b")),
        ("host:a b", None),
        (":u/r", None),
        ("git+file:///u/r", None),
        ("react", None),
        ("git://a.b/c.git", Some("https://a.b/c")),
        ("github:u/r", Some("https://github.com/u/r")),
        ("gitlab:u/r", Some("https://gitlab.com/u/r")),
        ("bitbucket:u/r", Some("https://bitbucket.org/u/r")),
        ("gist:1a2b", Some("https://gist.github.com/1a2b")),
        ("u/r", Some("https://github.com/u/r")),
        ("github.com/u/r", Some("https://github.com/u/r")),
        ("u/r/tree/main", Some("https://github.com/u/r/tree/main")),
        ("u//r", None),
        ("/u/r", None),
        ("./r", None),
        ("a b/c", None),
        ("file:../x", None),
        ("", None),
    ];
    for (raw, link) in expected {
        assert_eq!(clickable_url(raw).as_deref(), link, "{raw}");
        let field = Json::Text(raw.to_string());
        assert_eq!(parse_repository_url(&field).as_deref(), link);
        if let Some(link) = link {
            assert!(link.starts_with("https://") && !link.ends_with(".git"));
        }
    }
    assert_eq!(parse_repository_url(&Json::Null), None);
    assert_eq!(parse_license(&Json::Text("ISC".to_string())).as_deref(), Some("ISC"));
    assert_eq!(parse_license(&Json::Bool(true)), None);
}

#[test]
fn a_readme_is_cut_at_a_character() {
    let whole = "a".repeat(README_CAP);
    assert_eq!(cap_readme(&whole), whole);
    let over = format!("{whole}b");
    assert_eq!(cap_readme(&over), format!("{whole}\n\n…"));
    let wide = format!("{}é tail", "a".repeat(README_CAP - 1));
    assert_eq!(cap_readme(&wide), format!("{}\n\n…", "a".repeat(README_CAP - 1)));
    let body = format!(r#"{{"readme": "{over}"}}"#);
    let doc = fetch_package_doc(&answer(&body)).unwrap();
    assert_eq!(doc.readme.unwrap().len(), README_CAP + "\n\n…".len());
}

#[test]
fn popovers_leave_out_what_is_not_known() {
    let empty = PackageDoc {
        latest: None,
        description: None,
        homepage: None,
        repository: None,
        license: None,
        readme: None,
    };
    assert_eq!(
        build_hover_markdown("x", &empty),
        "## x\n\n[npm](https://www.npmjs.com/package/x)\n\n"
    );
    let full = PackageDoc {
        latest: Some(Version::new(1, 2, 3)),
        description: Some("D".to_string()),
        homepage: Some("H".to_string()),
        repository: Some("R".to_string()),
        license: Some("L".to_string()),
        readme: Some("M".to_string()),
    };
    assert_eq!(
        build_hover_markdown("x", &full),
        "## x\n\n**1.2.3** · latest · L\n\nD\n\n[npm](https://www.npmjs.com/package/x) · \
         [homepage](H) · [repository](R)\n\n---\n\nM"
    );
    let licensed = PackageDoc { license: Some("L".to_string()), ..empty };
    assert_eq!(
        build_hover_markdown("x", &licensed),
        "## x\n\nL\n\n[npm](https://www.npmjs.com/package/x)\n\n"
    );
}

#[test]
fn packages_are_asked_for_once_over_the_pointer() {
    let text = "catalog:\n  react: ^18.0.0\n";
    let kind = LensFile::PnpmWorkspace;
    let mut cache = DocCache::new();
    match npm_package_hover(text, kind, 1, 4, &cache) {
        Hover::Ask(package, cols) => {
            assert_eq!((package.as_str(), cols), ("react", 2..7));
        }
        other => panic!("{other:?}"),
    }
    assert!(matches!(npm_package_hover(text, kind, 0, 0, &cache), Hover::Nothing));
    let doc = fetch_package_doc(&answer(r#"{"license": "MIT"}"#));
    let shown = cache.store("react".to_string(), doc).unwrap();
    match npm_package_hover(text, kind, 1, 12, &cache) {
        Hover::Show(markdown, cols) => {
            assert_eq!((markdown, cols), (shown, 2..7));
        }
        other => panic!("{other:?}"),
    }
    assert_eq!(cache.store("react".to_string(), None), None);
    assert!(matches!(npm_package_hover(text, kind, 1, 4, &cache), Hover::Nothing));
}

#[test]
fn manifests_name_their_packages() {
    let document = Json::Object(vec![
        ("name".to_string(), Json::Text("a".to_string())),
        ("version".to_string(), Json::Text("1".to_string())),
    ]);
    assert_eq!(package_name_version(&document), Some(("a".to_string(), "1".to_string())));
    assert_eq!(parse_package_name_version(r#"{"name": 1, "version": "1"}"#), None);
    assert_eq!(parse_package_name_version(r#"{"version": "1"}"#), None);
    assert_eq!(parse_package_name_version("nothing"), None);
}

#[test]
fn manifests_of_dependencies_do_not_count() {
    assert!(is_workspace_manifest("package.json"));
    assert!(is_workspace_manifest("apps/web/package.json"));
    assert!(!is_workspace_manifest("apps/web/my-package.json"));
    assert!(!is_workspace_manifest("package.json/index.js"));
    assert!(!is_workspace_manifest("node_modules/react/package.json"));
    assert!(!is_workspace_manifest("apps/my_node_modules_2/package.json"));
}

fn workspace() -> WorkspaceContext {
    let yaml = "catalog:\n  react: ^17.0.0\n  react: ^18.0.0\ncatalogs:\n  default:\n    react: 1.0.0\n  next:\n    react: ^19.0.0\n";
    let manifests = vec![
        r#"{"name": "@app/ui", "version": "1.0.0"}"#.to_string(),
        "broken".to_string(),
        r#"{"name": "@app/ui", "version": "1.4.0"}"#.to_string(),
    ];
    build_workspace_context(&Some(yaml.to_string()), &manifests)
}

#[test]
fn references_stand_for_the_last_entry() {
    let context = workspace();
    let resolve = |spec: &str, name: &str| resolve_ref(spec, name, Some(&context));
    assert_eq!(resolve("catalog:", "react").as_deref(), Some("catalog: → ^18.0.0"));
    assert_eq!(
        resolve(" catalog:default ", "react").as_deref(),
        Some("catalog:default → ^18.0.0")
    );
    assert_eq!(resolve("catalog:next", "react").as_deref(), Some("catalog:next → ^19.0.0"));
    assert_eq!(resolve("catalog:gone", "react"), None);
    assert_eq!(resolve("workspace:^", "@app/ui").as_deref(), Some("workspace:^ → 1.4.0"));
    assert_eq!(resolve("workspace:^", "@app/other"), None);
    assert_eq!(resolve("^1.0.0", "react"), None);
}

#[test]
fn a_workspace_without_catalogs_still_has_packages() {
    let manifests = vec![r#"{"name": "a", "version": "2.0.0"}"#.to_string()];
    let context = build_workspace_context(&None, &manifests);
    assert_eq!(resolve_ref("catalog:", "a", Some(&context)), None);
    assert_eq!(resolve_ref("workspace:*", "a", Some(&context)).as_deref(), Some("workspace:* → 2.0.0"));
}

#[test]
fn workspace_specs_are_told_by_their_protocol() {
    assert!(needs_workspace_context(" catalog:x"));
    assert!(needs_workspace_context("workspace:"));
    assert!(!needs_workspace_context("npm:react"));
    assert!(!needs_workspace_context("catalog"));
}

#[test]
fn a_workspace_is_built_once() {
    let mut cache = WorkspaceCache::new();
    assert!(cache.request(7));
    assert!(!cache.request(7));
    assert!(cache.request(8));
    assert!(cache.context(7).is_none());
    cache.finish(7, workspace());
    assert!(!cache.request(7));
    assert!(cache.context(7).is_some());
    cache.forget(7);
    assert!(cache.context(7).is_none());
    assert!(cache.request(7));
}
