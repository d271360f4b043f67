//! The entries of lens files and their rewriting.
use version_lens::catalogs::{parse_pnpm_catalogs, parse_yaml_entry, yaml_key};
use version_lens::edit::{apply_version_update, VersionEdit};
use version_lens::manifest::{file_kind, package_at_point, parse_deps, range_contains, LensFile};
use version_lens::package_json::{json_object_key, parse_json_entry, parse_package_json};
use version_lens::version::{spec_version, Version};

/// The text after an edit.
fn applied(text: &str, edit: &VersionEdit) -> String {
    let mut start = 0;
    for line in text.split_inclusive('\n').take(edit.row as usize) {
        start += line.len();
    }
    let (from, to) = (start + edit.cols.start as usize, start + edit.cols.end as usize);
    format!("{}{}{}", &text[..from], edit.text, &text[to..])
}

const MANIFEST: &str = "{\r\n  \"name\": \"démo\",\r\n  \"dependencies\": {\r\n    \"réact\": \"^18.0.0\", \"x\": \"1\"\r\n  },\r\n  \"devDependencies\": {\r\n    \"nested\": {\r\n      \"deep\": \"1.0.0\"\r\n    },\r\n    \"tool\": \"~2.1\"\r\n  },\r\n  \"peerDependencies\": {}, \"after\": \"3.0.0\",\r\n  \"optionalDependencies\": { \"one\": \"4.0.0\" }\r\n}";

const CATALOGS: &str = "# comment\npackages:\n  - \"a: b\"\ncatalog:\n  # react: 1.0.0\n  react: ^18.0.0 # pinned\n  'quoted' : \"~2.0.0\"  \n\n  empty:\n  - item: 1.0.0\ncatalogs:\n  orphan: 1.0.0\n  'old':\n    react: 17.0.0\n  new:\n    vue: '>=3'\n\t  tab: 1.1.1\nother:\n  react: 9.9.9\n";

#[test]
fn files_are_told_by_their_names() {
    assert_eq!(file_kind("package.json"), Some(LensFile::PackageJson));
    assert_eq!(file_kind("pnpm-workspace.yaml"), Some(LensFile::PnpmWorkspace));
    assert_eq!(file_kind("package-lock.json"), None);
}

#[test]
fn sections_of_a_manifest_end_with_their_braces() {
    let deps = parse_package_json(MANIFEST);
    let found: Vec<(&str, &str, &str, u32, u32)> = deps
        .iter()
        .map(|d| (d.context.as_str(), d.name.as_str(), d.spec.as_str(), d.row, d.indent))
        .collect();
    assert_eq!(
        found,
        vec![
            ("dependencies", "réact", "^18.0.0", 3, 4),
            ("devDependencies", "tool", "~2.1", 9, 4),
        ]
    );
}

#[test]
fn entries_of_catalogs_carry_their_catalog() {
    let deps = parse_pnpm_catalogs(CATALOGS);
    let found: Vec<(&str, &str, &str, u32, u32)> = deps
        .iter()
        .map(|d| (d.context.as_str(), d.name.as_str(), d.spec.as_str(), d.row, d.indent))
        .collect();
    assert_eq!(
        found,
        vec![
            ("catalog", "react", "^18.0.0", 5, 2),
            ("catalog", "quoted", "~2.0.0", 6, 2),
            ("catalogs.old", "react", "17.0.0", 13, 4),
            ("catalogs.new", "vue", ">=3", 15, 4),
            ("catalogs.new", "tab", "1.1.1", 16, 3),
        ]
    );
}

#[test]
fn columns_are_those_of_the_texts() {
    for (text, kind) in [(MANIFEST, LensFile::PackageJson), (CATALOGS, LensFile::PnpmWorkspace)] {
        let lines: Vec<&str> = text.lines().collect();
        for dep in parse_deps(text, kind) {
            let line = lines[dep.row as usize];
            assert_eq!(&line[dep.name_cols.start as usize..dep.name_cols.end as usize], dep.name);
            assert_eq!(&line[dep.value_cols.start as usize..dep.value_cols.end as usize], dep.spec);
            assert_eq!(line.len() - line.trim_start().len(), dep.indent as usize);
        }
    }
}

#[test]
fn rows_go_from_top_to_bottom() {
    for (text, kind) in [(MANIFEST, LensFile::PackageJson), (CATALOGS, LensFile::PnpmWorkspace)] {
        let rows: Vec<u32> = parse_deps(text, kind).iter().map(|dep| dep.row).collect();
        assert!(rows.windows(2).all(|pair| pair[0] < pair[1]));
    }
}

#[test]
fn every_column_of_an_entry_leads_to_it() {
    for (text, kind) in [(MANIFEST, LensFile::PackageJson), (CATALOGS, LensFile::PnpmWorkspace)] {
        for dep in parse_deps(text, kind) {
            for col in 0..60 {
                let over = range_contains(&dep.name_cols, col) || range_contains(&dep.value_cols, col);
                let found = package_at_point(text, kind, dep.row, col);
                assert_eq!(found.is_some(), over);
                if let Some((name, cols)) = found {
                    assert_eq!(name, dep.name);
                    assert_eq!(cols, dep.name_cols);
                }
            }
        }
    }
}

#[test]
fn lines_of_a_manifest_hold_one_entry_each() {
    assert_eq!(
        parse_json_entry("  \"a\" : \"b\","),
        Some(("a".to_string(), 3..4, "b".to_string(), 9..10))
    );
    assert_eq!(parse_json_entry("\"a\": 1"), None);
    assert_eq!(parse_json_entry("\"a\" \"b\""), None);
    assert_eq!(parse_json_entry("\"a"), None);
    assert_eq!(parse_json_entry("none"), None);
    assert_eq!(parse_json_entry("\"a\": \"b"), None);
    assert_eq!(
        parse_json_entry("\"…\": \"é\""),
        Some(("…".to_string(), 1..4, "é".to_string(), 8..10))
    );
}

#[test]
fn object_keys_stand_in_quotes() {
    assert_eq!(json_object_key("\"key\": {").as_deref(), Some("key"));
    assert_eq!(json_object_key("\"open").as_deref(), Some("open"));
    assert_eq!(json_object_key("key"), None);
    assert_eq!(json_object_key(""), None);
}

#[test]
fn keys_of_catalogs_lose_their_quotes() {
    assert_eq!(yaml_key("key : value").as_deref(), Some("key"));
    assert_eq!(yaml_key("'a:b': value").as_deref(), Some("a:b"));
    assert_eq!(yaml_key("\"a'b\":").as_deref(), Some("a'b"));
    assert_eq!(yaml_key("'open: value"), None);
    assert_eq!(yaml_key("nothing"), None);
}

#[test]
fn values_of_catalogs_end_before_comments() {
    assert_eq!(
        parse_yaml_entry("  a: 1.0.0 # b # c"),
        Some(("a".to_string(), 2..3, "1.0.0".to_string(), 5..10))
    );
    assert_eq!(
        parse_yaml_entry("'a':  '1#0' tail"),
        Some(("a".to_string(), 1..2, "1#0".to_string(), 7..10))
    );
    assert_eq!(parse_yaml_entry("  react17: # legacy"), None);
    assert_eq!(parse_yaml_entry("  a:\t# only"), None);
    assert_eq!(
        parse_yaml_entry("a: \"1 # 2\" # three"),
        Some(("a".to_string(), 0..1, "1 # 2".to_string(), 4..9))
    );
    assert_eq!(
        parse_yaml_entry("a: 1#2"),
        Some(("a".to_string(), 0..1, "1#2".to_string(), 3..6))
    );
    assert_eq!(parse_yaml_entry("  a:"), None);
    assert_eq!(parse_yaml_entry("  a:  \t"), None);
    assert_eq!(parse_yaml_entry("  a: 'open"), None);
    assert_eq!(parse_yaml_entry("  'a' b"), None);
    assert_eq!(parse_yaml_entry("- a: 1"), None);
    assert_eq!(parse_yaml_entry("# a: 1"), None);
    assert_eq!(parse_yaml_entry("a"), None);
}

#[test]
fn a_click_keeps_the_operator() {
    let edit = apply_version_update(
        MANIFEST,
        LensFile::PackageJson,
        "dependencies",
        "réact",
        &Version::new(19, 1, 0),
    )
    .unwrap();
    assert_eq!((edit.row, edit.cols.clone(), edit.text.as_str()), (3, 15..22, "^19.1.0"));
    assert_eq!(
        applied(MANIFEST, &edit),
        MANIFEST.replace("\"^18.0.0\"", "\"^19.1.0\"")
    );
}

#[test]
fn a_click_on_the_version_that_is_there_does_nothing() {
    let version = Version::new(18, 0, 0);
    let edit =
        apply_version_update(CATALOGS, LensFile::PnpmWorkspace, "catalog", "react", &version);
    assert!(edit.is_none());
}

#[test]
fn a_click_on_what_is_gone_does_nothing() {
    let version = Version::new(1, 0, 0);
    for (context, name) in [("catalog", "vue"), ("catalogs.new", "react"), ("catalogs.none", "vue")] {
        let edit = apply_version_update(CATALOGS, LensFile::PnpmWorkspace, context, name, &version);
        assert!(edit.is_none());
    }
}

#[test]
fn a_click_rewrites_one_entry_and_no_other() {
    let version = Version {
        pre: "beta.1".to_string(),
        build: "b-2".to_string(),
        ..Version::new(20, 1, 2)
    };
    for (text, kind) in [(MANIFEST, LensFile::PackageJson), (CATALOGS, LensFile::PnpmWorkspace)] {
        let before = parse_deps(text, kind);
        for i in 0..before.len() {
            let dep = &before[i];
            let edit =
                apply_version_update(text, kind, &dep.context, &dep.name, &version).unwrap();
            let after_text = applied(text, &edit);
            let after = parse_deps(&after_text, kind);
            assert_eq!(after.len(), before.len());
            for j in 0..before.len() {
                let (old, new) = (&before[j], &after[j]);
                assert_eq!((&new.context, &new.name, new.row), (&old.context, &old.name, old.row));
                assert_eq!((new.indent, &new.name_cols), (old.indent, &old.name_cols));
                if i == j {
                    assert_eq!(new.spec, edit.text);
                    assert!(new.spec.ends_with("20.1.2-beta.1+b-2"));
                    assert_eq!(new.value_cols.start, old.value_cols.start);
                    let operator: String =
                        old.spec.chars().take_while(|c| !c.is_ascii_digit()).collect();
                    assert!(new.spec.starts_with(&operator));
                    assert_eq!(spec_version(&new.spec), Some(Version::new(20, 1, 2)));
                } else {
                    assert_eq!((&new.spec, &new.value_cols), (&old.spec, &old.value_cols));
                }
            }
            let again = apply_version_update(&after_text, kind, &dep.context, &dep.name, &version);
            assert!(again.is_none());
        }
    }
}

#[test]
fn rewriting_twice_is_rewriting_once() {
    let (first, second) = (Version::new(5, 0, 0), Version::new(6, 7, 8));
    let kind = LensFile::PnpmWorkspace;
    let direct = apply_version_update(CATALOGS, kind, "catalogs.new", "vue", &second).unwrap();
    let step = apply_version_update(CATALOGS, kind, "catalogs.new", "vue", &first).unwrap();
    let between = applied(CATALOGS, &step);
    let last = apply_version_update(&between, kind, "catalogs.new", "vue", &second).unwrap();
    assert_eq!(applied(&between, &last), applied(CATALOGS, &direct));
}

#[test]
fn a_header_with_a_comment_names_its_catalog() {
    let deps = parse_pnpm_catalogs("catalogs:\n  react17: # legacy\n    react: ^17.0.0\n");
    assert_eq!(deps.len(), 1);
    assert_eq!(deps[0].name, "react");
    assert_eq!(deps[0].spec, "^17.0.0");
    assert_eq!(deps[0].context, "catalogs.react17");
    assert_eq!(deps[0].row, 2);
}

fn entries(text: &str) -> Vec<(String, String)> {
    parse_package_json(text).into_iter().map(|dep| (dep.context, dep.name)).collect()
}

fn pairs(expected: &[(&str, &str)]) -> Vec<(String, String)> {
    expected.iter().map(|(a, b)| (a.to_string(), b.to_string())).collect()
}

#[test]
fn only_sections_of_the_outermost_object_count() {
    let text = r#"{
  "pnpm": {
    "dependencies": {
      "x": "1.0.0"
    }
  },
  "dependencies": {
    "x": "2.0.0",
    "inner": {
      "x": "3.0.0"
    }
  }
}"#;
    assert_eq!(entries(text), pairs(&[("dependencies", "x")]));
    assert_eq!(parse_package_json(text)[0].spec, "2.0.0");
}

#[test]
fn a_section_ends_with_its_brace_wherever_that_stands() {
    let text = r#"{
  "dependencies": {
    "a": "1.0.0"
  }, "pnpm": {
    "a": "2.0.0"
  },
  "devDependencies": {
    "b": { "a": "1.0.0" },
    "c": "1.0.0"
  }, "version": "1.0.0",
  "peerDependencies": {}, "engines": {
    "node": "18.0.0"
  },
  "optionalDependencies": null, "more": {
    "d": "1.0.0"
  }
}"#;
    assert_eq!(
        entries(text),
        pairs(&[("dependencies", "a"), ("devDependencies", "c")])
    );
}

#[test]
fn a_section_needs_no_braces_around_it() {
    let text = "\"dependencies\": {\n\"x\": \"1\",\n\"in\": {\n\"y\": \"2\"\n},\n\"z\": \"3\"\n}\n\"w\": \"4\"";
    assert_eq!(entries(text), pairs(&[("dependencies", "x"), ("dependencies", "z")]));
    let closed = "}\n}\n\"dependencies\": {\n\"x\": \"1\"\n}";
    assert_eq!(entries(closed), pairs(&[("dependencies", "x")]));
}

#[test]
fn a_section_may_open_where_another_one_closes() {
    let text = r#"{ "dependencies": {
    "a": "1.0.0"
  }, "devDependencies": {
    "a": "2.0.0"
  },
  "scripts": {
    "b": "1.0.0"
  }, "peerDependencies": {
    "c": "1.0.0"
}}"#;
    assert_eq!(
        entries(text),
        pairs(&[("dependencies", "a"), ("devDependencies", "a"), ("peerDependencies", "c")])
    );
}

#[test]
fn braces_in_strings_do_not_count() {
    let text = r#"{
  "scripts": {
    "a": "echo \"{\" }} {"
  },
  "dependencies": {
    "a": "1{",
    "b}": "1.0.0"
  },
  "c": "2.0.0"
}"#;
    assert_eq!(entries(text), pairs(&[("dependencies", "a"), ("dependencies", "b}")]));
    let kind = LensFile::PackageJson;
    let edit = apply_version_update(text, kind, "dependencies", "a", &Version::new(2, 0, 0)).unwrap();
    assert_eq!(edit.text, "2.0.0");
    assert_eq!(
        entries(&applied(text, &edit)),
        pairs(&[("dependencies", "a"), ("dependencies", "b}")])
    );
}

#[test]
fn strings_end_at_a_quote_without_a_backslash() {
    assert_eq!(
        parse_json_entry(r#""a\"b" : "c\\""#),
        Some((r#"a\"b"#.to_string(), 1..5, r#"c\\"#.to_string(), 10..13))
    );
    assert_eq!(parse_json_entry(r#""a": "b\""#), None);
    assert_eq!(parse_json_entry(r#""a": { "b": "c" }"#), None);
    assert_eq!(parse_json_entry(r#""a": 1, "b": "c""#), None);
}

#[test]
fn a_click_on_a_wildcard_replaces_it() {
    let expected = [
        ("^x", "^1.2.3"),
        ("x", "1.2.3"),
        ("~X.1", "~1.2.3"),
        (">= *", ">= 1.2.3"),
        (" v*-pre", " v1.2.3"),
        ("1.x", "1.2.3"),
        (">=1.0.0 <2.0.0", ">=1.2.3"),
        ("npm:react@18.0.0", "npm:react@1.2.3"),
        ("x.1a", "1.2.3"),
        ("x1", "x1.2.3"),
    ];
    let version = Version::new(1, 2, 3);
    let kind = LensFile::PackageJson;
    for (before, after) in expected {
        let text = format!("{{\n\"dependencies\": {{\n\"a\": \"{before}\"\n}}\n}}");
        let edit = apply_version_update(&text, kind, "dependencies", "a", &version).unwrap();
        assert_eq!(edit.text, after);
        if spec_version(before).is_some() {
            assert_eq!(spec_version(after), Some(version.clone()));
        }
        let done = applied(&text, &edit);
        assert!(apply_version_update(&done, kind, "dependencies", "a", &version).is_none());
    }
}

#[test]
fn context_and_name_tell_entries_apart() {
    for (text, kind) in [(MANIFEST, LensFile::PackageJson), (CATALOGS, LensFile::PnpmWorkspace)] {
        let deps = parse_deps(text, kind);
        for i in 0..deps.len() {
            for j in 0..i {
                assert_ne!(
                    (&deps[i].context, &deps[i].name),
                    (&deps[j].context, &deps[j].name)
                );
            }
        }
    }
}
