use typm::manifest::{
    candidates, discover, missing_manifest, Dependency, Manifest, ManifestDocument, ManifestError,
};

fn local_dependency(path: &str) -> Dependency {
    Dependency {
        git: None,
        path: Some(path.to_owned()),
        branch: None,
        tag: None,
        rev: None,
        namespace: "typm".to_owned(),
    }
}

fn git_dependency(git: &str) -> Dependency {
    Dependency {
        git: Some(git.to_owned()),
        path: None,
        ..local_dependency("")
    }
}

fn field(entry: &toml::Value, key: &str) -> Option<String> {
    entry
        .get(key)
        .map(|value| value.as_str().unwrap().to_owned())
}

/// Reads the dependencies of a manifest.
fn read(text: &str) -> Manifest {
    let table: toml::Table = toml::from_str(text).unwrap();
    let mut manifest = Manifest::default();
    if let Some(dependencies) = table.get("dependencies") {
        for (name, entry) in dependencies.as_table().unwrap() {
            manifest.dependencies.insert(
                name.clone(),
                Dependency {
                    git: field(entry, "git"),
                    path: field(entry, "path"),
                    branch: field(entry, "branch"),
                    tag: field(entry, "tag"),
                    rev: field(entry, "rev"),
                    namespace: field(entry, "namespace").unwrap_or("typm".to_owned()),
                },
            );
        }
    }
    manifest
}

fn document(text: &str) -> ManifestDocument {
    match ManifestDocument::parse(read(text), text) {
        Ok(document) => document,
        Err(error) => panic!("{}", error.message("typm.toml")),
    }
}

fn declared<'a>(manifest: &'a Manifest, name: &str) -> &'a Dependency {
    manifest.dependencies.get(&name.to_owned()).unwrap()
}

#[test]
fn inserting_and_removing_dependencies_preserves_manifest_comments() {
    let original = "# keep this comment\n[dependencies] # keep this too\n";
    let mut document = document(original);
    let dependency = Dependency {
        namespace: "company".to_owned(),
        ..local_dependency("../custom")
    };

    document.insert("custom", dependency.clone());

    let updated = document.text();
    assert!(updated.contains("# keep this comment"));
    assert!(updated.contains("# keep this too"));
    assert!(declared(&read(&updated), "custom").same_as(&dependency));
    assert!(declared(&document.manifest, "custom").same_as(&dependency));

    document.remove("custom").unwrap();

    assert_eq!(document.text(), original);
    assert!(document.manifest.dependencies.is_empty());
}

#[test]
fn readding_a_dependency_preserves_its_trailing_comment() {
    let mut document = document(
        "[dependencies]\nlocal = { path = \"../local/local\" } # keep the dependency rationale\n",
    );
    let dependency = local_dependency("../updated-local");

    document.insert("local", dependency.clone());

    let updated = document.text();
    assert!(updated.contains("# keep the dependency rationale"));
    assert!(declared(&read(&updated), "local").same_as(&dependency));
    assert!(declared(&document.manifest, "local").same_as(&dependency));
}

#[test]
fn another_source_replaces_every_field_and_keeps_the_other_entries() {
    let mut document = document(
        "[dependencies.first]\ngit = \"https://example.invalid/a\" # why\nbranch = \"main\"\nnamespace = \"company\"\n\n[dependencies]\nsecond = { path = \"../second\" }\n",
    );
    document.insert("first", local_dependency("../first"));
    let text = document.text();
    let manifest = read(&text);
    assert!(declared(&manifest, "first").same_as(&local_dependency("../first")));
    assert!(declared(&manifest, "second").same_as(&local_dependency("../second")));
    assert!(!text.contains("main") && !text.contains("company"));
}

#[test]
fn every_comment_beside_a_value_stays() {
    let mut document = document(
        "# head\n[dependencies.first] # table\ngit = \"https://example.invalid/a\" # origin\nbranch = \"main\" # line\n\n[dependencies.second] # other\npath = \"../second\" # there\n",
    );
    let dependency = Dependency {
        tag: Some("v1".to_owned()),
        ..git_dependency("https://example.invalid/b")
    };
    document.insert("first", dependency.clone());
    let text = document.text();
    for comment in ["# head", "# table", "# origin", "# other", "# there"] {
        assert!(text.contains(comment), "{comment} in {text}");
    }
    assert!(!text.contains("# line"));
    let manifest = read(&text);
    assert!(declared(&manifest, "first").same_as(&dependency));
    assert!(declared(&manifest, "second").same_as(&local_dependency("../second")));

    document.remove("first").unwrap();
    let text = document.text();
    assert!(text.contains("# other") && text.contains("# there"));
    assert!(!text.contains("# origin"));
}

#[test]
fn comments_on_their_own_lines_stay() {
    let original = "# head\nname = \"own\" # beside\n\n# table\n[dependencies]\n# above first\nfirst = { path = \"../first\" }\n# above second\nsecond.path = \"../second\"\n# end\n";
    for returns in ["\n", "\r\n"] {
        let mut document = document(&original.replace('\n', returns));
        document.insert("first", local_dependency("../again"));
        document.insert("third", git_dependency("https://example.invalid/a"));
        for taken in ["third", "second"] {
            let text = document.text();
            for comment in ["# head\n", "# beside\n", "# table\n", "# above first\n", "# end\n"] {
                assert!(text.contains(comment), "{comment} in {text}");
            }
            assert!(text.contains("# above second\n"));
            assert!(declared(&read(&text), "first").same_as(&local_dependency("../again")));
            document.remove(taken).unwrap();
        }
        let text = document.text();
        assert!(text.contains("# above first\n") && text.contains("# end\n"));
        assert!(!text.contains("# above second"));
    }
}

#[test]
fn an_entry_written_by_its_fields_is_replaced_field_by_field() {
    for original in [
        "[dependencies]\nlocal.path = \"../local\" # why\n",
        "dependencies = { local.path = \"../local\" } # why\n",
    ] {
        let mut document = document(original);
        document.insert("local", git_dependency("https://example.invalid/a"));
        let text = document.text();
        let replaced = git_dependency("https://example.invalid/a");
        assert!(declared(&read(&text), "local").same_as(&replaced));
        assert_eq!(text.contains("# why"), original.starts_with("dependencies"));
    }
}

#[test]
fn an_entry_left_without_fields_is_still_written() {
    for original in [
        "[dependencies]\nlocal.path = \"../local\"\n",
        "dependencies = { local.path = \"../local\" }\n",
        "[dependencies]\nlocal = { path = \"../local\" }\n",
    ] {
        let mut document = document(original);
        document.insert("local", Dependency { path: None, ..local_dependency("") });
        assert!(!document.text().contains("../local"));

        document.insert("local", local_dependency("../again"));
        let manifest = read(&document.text());
        assert!(declared(&manifest, "local").same_as(&local_dependency("../again")));
    }
}

#[test]
fn a_missing_table_is_made() {
    let mut document = document("");
    document.insert(
        "alpha",
        Dependency {
            tag: Some("v1".to_owned()),
            ..git_dependency("https://example.invalid/a")
        },
    );
    assert_eq!(
        document.text(),
        "[dependencies]\nalpha = { git = \"https://example.invalid/a\", tag = \"v1\" }\n"
    );
}

#[test]
fn removing_what_is_not_declared_is_refused() {
    let mut document = document("[dependencies]\n");
    assert_eq!(
        document.remove("absent").unwrap_err().message("typm.toml"),
        "dependency `absent` is not in the manifest"
    );
    assert_eq!(document.text(), "[dependencies]\n");
}

#[test]
fn documents_that_cannot_be_edited_are_refused() {
    for text in ["dependencies = 3\n", "[dependencies\n"] {
        let error = match ManifestDocument::parse(Manifest::default(), text) {
            Err(error) => error,
            Ok(_) => panic!("{text}"),
        };
        assert!(matches!(error, ManifestError::NotEditable));
        assert_eq!(error.message("/p/typm.toml"), "cannot edit /p/typm.toml");
    }
}

#[test]
fn a_document_of_other_dependencies_is_refused() {
    let text = "[dependencies]\na = { path = \"../a\", namespace = \"typm\" }\n";
    assert!(ManifestDocument::parse(read(text), text).is_ok());
    let mut other = read(text);
    other
        .dependencies
        .insert("b".to_owned(), local_dependency("../b"));
    let mut changed = Manifest::default();
    changed
        .dependencies
        .insert("a".to_owned(), git_dependency("https://example.invalid/a"));
    for manifest in [Manifest::default(), other, changed] {
        assert!(matches!(
            ManifestDocument::parse(manifest, text),
            Err(ManifestError::NotEditable)
        ));
    }
}

#[test]
fn an_edited_document_is_read_as_its_manifest() {
    let mut document = document("[dependencies.a]\npath = \"../a\"\n");
    document.insert("b", git_dependency("https://example.invalid/b"));
    let text = document.text();
    assert!(ManifestDocument::parse(document.manifest, &text).is_ok());
}

#[test]
fn the_first_dependency_that_cannot_be_declared_is_told() {
    let text = "[dependencies]\nzeta = {}\nbeta = { path = \"\" }\nalpha = { path = \"../a\" }\n";
    let error = match ManifestDocument::parse(read(text), text) {
        Err(error) => error,
        Ok(_) => panic!("{text}"),
    };
    assert_eq!(error.message("typm.toml"), "invalid dependency `beta`");
    match error {
        ManifestError::Invalid(invalid) => {
            assert_eq!(invalid.error.message(), "dependency path cannot be empty")
        }
        _ => panic!("another error"),
    }
}

#[test]
fn dependencies_are_refused_by_the_first_fault() {
    let message = |dependency: &Dependency, name: Option<&str>| {
        dependency.validate(name).unwrap_err().message()
    };
    let both = Dependency {
        git: Some("https://example.invalid/a".to_owned()),
        ..local_dependency("../a")
    };
    assert_eq!(
        message(&both, None),
        "dependency must specify exactly one of `git` or `path`"
    );
    assert_eq!(
        message(&local_dependency(""), None),
        "dependency path cannot be empty"
    );
    assert_eq!(
        message(&local_dependency("../a"), Some("not a name")),
        "invalid dependency identity `@typm/not a name`"
    );
    let elsewhere = Dependency {
        namespace: "a/b".to_owned(),
        ..local_dependency("../a")
    };
    assert_eq!(
        message(&elsewhere, None),
        "invalid dependency identity `@a/b/package`"
    );
    let selected = Dependency {
        rev: Some("abc".to_owned()),
        ..local_dependency("../a")
    };
    assert_eq!(
        message(&selected, Some("a")),
        "branch, tag, and rev require a Git dependency"
    );
    assert_eq!(
        message(&git_dependency("-x"), Some("a")),
        "Git source must be a nonempty URL or filesystem path"
    );
    assert!(local_dependency("../a").validate(Some("a")).is_ok());
    assert!(git_dependency("../a").validate(None).is_ok());
    assert!(local_dependency("../a")
        .validate_identified(Some("a"), false)
        .is_err());
    assert!(local_dependency("../a").git_source().is_none());
    assert_eq!(git_dependency("../a").git_source().unwrap().git, "../a");
}

#[test]
fn the_nearest_manifest_is_used() {
    assert_eq!(
        candidates("/work/a"),
        vec!["/work/a/typm.toml", "/work/typm.toml", "/typm.toml"]
    );
    assert_eq!(
        discover(None, "/work/a", &vec![false, true]),
        "/work/typm.toml"
    );
    assert_eq!(
        discover(None, "/work/a", &vec![false, false, false]),
        "/work/a/typm.toml"
    );
    assert_eq!(
        discover(Some("other.toml"), "/work/a", &vec![true]),
        "/work/a/other.toml"
    );
    assert_eq!(
        missing_manifest("/work/a/other.toml"),
        "manifest does not exist: /work/a/other.toml"
    );
}
