//! What the lenses of a workspace with a few packages come to.
use version_lens::catalogs::parse_pnpm_catalogs;
use version_lens::hover::build_hover_markdown;
use version_lens::json::Json;
use version_lens::manifest::{package_at_point, Dependency, LensFile};
use version_lens::package_json::parse_package_json;
use version_lens::registry::{parse_repository_url, PackageDoc};
use version_lens::text_map::TextMap;
use version_lens::tiers::compute_tiers;
use version_lens::version::{spec_version, Version};
use version_lens::workspace::{
    parse_package_name_version, parse_workspace_catalogs, resolve_ref, WorkspaceContext,
};

fn names(deps: &[Dependency]) -> Vec<&str> {
    deps.iter().map(|d| d.name.as_str()).collect()
}

#[test]
fn test_parse_package_json() {
    let text = r#"{
  "name": "demo",
  "dependencies": {
    "react": "^18.0.0",
    "@scope/pkg": "1.2.3"
  },
  "scripts": {
    "build": "tsc"
  }
}"#;
    let deps = parse_package_json(text);
    assert_eq!(names(&deps), vec!["react", "@scope/pkg"]);
    assert_eq!(deps[0].spec, "^18.0.0");
    assert_eq!(deps[0].context, "dependencies");
    // The columns of the spec are those of exactly the version text.
    let line = text.lines().nth(deps[0].row as usize).unwrap();
    assert_eq!(
        &line[deps[0].value_cols.start as usize..deps[0].value_cols.end as usize],
        "^18.0.0"
    );
}

#[test]
fn test_parse_pnpm_catalogs() {
    let text = r#"packages:
  - "apps/*"

catalog:
  react: ^18.0.0
  "@types/node": ~20.0.0

catalogs:
  react17:
    react: ^17.0.0
"#;
    let deps = parse_pnpm_catalogs(text);
    assert_eq!(names(&deps), vec!["react", "@types/node", "react"]);
    assert_eq!(deps[0].context, "catalog");
    assert_eq!(deps[0].spec, "^18.0.0");
    assert_eq!(deps[1].name, "@types/node");
    assert_eq!(deps[1].spec, "~20.0.0");
    // The `react` of the named catalog is told apart by its context.
    assert_eq!(deps[2].context, "catalogs.react17");
    assert_eq!(deps[2].spec, "^17.0.0");
    // The columns are right, so that a click can rewrite the version.
    let line = text.lines().nth(deps[0].row as usize).unwrap();
    assert_eq!(
        &line[deps[0].value_cols.start as usize..deps[0].value_cols.end as usize],
        "^18.0.0"
    );
}

#[test]
fn test_spec_version() {
    assert_eq!(spec_version("^1.2.3"), Some(Version::new(1, 2, 3)));
    assert_eq!(spec_version("~0.20.0"), Some(Version::new(0, 20, 0)));
    assert_eq!(spec_version("1.x"), Some(Version::new(1, 0, 0)));
    assert_eq!(spec_version("18"), Some(Version::new(18, 0, 0)));
    assert_eq!(spec_version("workspace:*"), None);
    assert_eq!(spec_version("catalog:"), None);
    assert_eq!(spec_version("*"), None);
}

#[test]
fn test_compute_tiers() {
    let current = Version::new(18, 0, 0);
    let versions = [
        Version::new(18, 0, 5),
        Version::new(18, 3, 1),
        Version::new(19, 2, 7),
    ];
    let tiers = compute_tiers(&current, &versions);
    assert_eq!(tiers.patch, Some(Version::new(18, 0, 5)));
    assert_eq!(tiers.minor, Some(Version::new(18, 3, 1)));
    assert_eq!(tiers.major, Some(Version::new(19, 2, 7)));
    assert!(compute_tiers(&Version::new(19, 2, 7), &versions).is_empty());
}

#[test]
fn test_parse_workspace_catalogs() {
    let text = r#"catalog:
  react: ^18.0.0
catalogs:
  react17:
    react: ^17.0.0
    react-dom: ^17.0.0
"#;
    let (default_catalog, named_catalogs) = parse_workspace_catalogs(text);
    assert_eq!(default_catalog.get("react"), Some(&"^18.0.0".to_string()));
    assert_eq!(
        named_catalogs.get("react17").and_then(|c| c.get("react")),
        Some(&"^17.0.0".to_string())
    );
    assert_eq!(
        named_catalogs
            .get("react17")
            .and_then(|c| c.get("react-dom")),
        Some(&"^17.0.0".to_string())
    );
}

#[test]
fn test_resolve_ref() {
    let mut context = WorkspaceContext::default();
    context
        .default_catalog
        .insert("react".to_string(), "^18.0.0".to_string());
    let mut react17 = TextMap::new();
    react17.insert("react".to_string(), "^17.0.0".to_string());
    context
        .named_catalogs
        .insert("react17".to_string(), react17);
    context
        .local_versions
        .insert("@app/ui".to_string(), "1.4.0".to_string());

    assert_eq!(
        resolve_ref("catalog:", "react", Some(&context)).as_deref(),
        Some("catalog: → ^18.0.0")
    );
    assert_eq!(
        resolve_ref("catalog:react17", "react", Some(&context)).as_deref(),
        Some("catalog:react17 → ^17.0.0")
    );
    assert_eq!(
        resolve_ref("workspace:*", "@app/ui", Some(&context)).as_deref(),
        Some("workspace:* → 1.4.0")
    );
    // An unknown package and a missing context resolve to nothing.
    assert_eq!(resolve_ref("catalog:", "vue", Some(&context)), None);
    assert_eq!(resolve_ref("catalog:", "react", None), None);
}

#[test]
fn test_parse_package_name_version() {
    let text = r#"{ "name": "@app/ui", "version": "1.4.0", "private": true }"#;
    assert_eq!(
        parse_package_name_version(text),
        Some(("@app/ui".to_string(), "1.4.0".to_string()))
    );
    assert_eq!(parse_package_name_version(r#"{ "name": "x" }"#), None);
}

#[test]
fn test_package_at_point() {
    let text = "{\n  \"dependencies\": {\n    \"react\": \"^18.0.0\"\n  }\n}";
    // The key `react` is in row 2, and its name starts at column 5.
    let (name, name_cols) =
        package_at_point(text, LensFile::PackageJson, 2, 6).expect("hover over name");
    assert_eq!(name, "react");
    let line = text.lines().nth(2).unwrap();
    assert_eq!(
        &line[name_cols.start as usize..name_cols.end as usize],
        "react"
    );
    // The version text leads to the same package.
    assert_eq!(
        package_at_point(text, LensFile::PackageJson, 2, 16).map(|(n, _)| n),
        Some("react".to_string())
    );
    // A blank column leads to nothing.
    assert_eq!(package_at_point(text, LensFile::PackageJson, 0, 0), None);
}

#[test]
fn test_parse_repository_url() {
    assert_eq!(
        parse_repository_url(&Json::Object(vec![
            ("type".to_string(), Json::Text("git".to_string())),
            (
                "url".to_string(),
                Json::Text("git+https://github.com/facebook/react.git".to_string())
            ),
        ]))
        .as_deref(),
        Some("https://github.com/facebook/react")
    );
    assert_eq!(
        parse_repository_url(&Json::Text("git@github.com:user/repo.git".to_string())).as_deref(),
        Some("https://github.com/user/repo")
    );
}

#[test]
fn test_build_hover_markdown() {
    let doc = PackageDoc {
        latest: Some(Version::new(19, 0, 0)),
        description: Some("A library".to_string()),
        homepage: Some("https://react.dev".to_string()),
        repository: Some("https://github.com/facebook/react".to_string()),
        license: Some("MIT".to_string()),
        readme: Some("# React\n\nHello".to_string()),
    };
    let markdown = build_hover_markdown("react", &doc);
    assert!(markdown.starts_with("## react"));
    assert!(markdown.contains("**19.0.0** · latest · MIT"));
    assert!(markdown.contains("A library"));
    assert!(markdown.contains("[npm](https://www.npmjs.com/package/react)"));
    assert!(markdown.contains("[homepage](https://react.dev)"));
    assert!(markdown.contains("# React\n\nHello"));
}
