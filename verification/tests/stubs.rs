use typm::ordered::Table;
use typm::stubs::{
    entry_target, manifest_stub, prepare, replace_version, source_entries, validate_view,
    CutManifest, FoundLink, Listed,
};

const MANIFEST: &str =
    "[package]\nname = 'example'\nversion = '1.2.3'\nentrypoint = 'lib.typ'\n";

fn listed() -> Vec<Listed> {
    ["lib.typ", "typst.toml", ".typm", "assets"]
        .iter()
        .map(|name| Listed {
            name: name.as_bytes().to_vec(),
            is_directory: *name == ".typm" || *name == "assets",
        })
        .collect()
}

fn found(source: &str) -> Table<Vec<u8>, FoundLink> {
    let mut found = Table::new();
    for name in ["lib.typ", "typst.toml", "assets"] {
        found.insert(
            name.as_bytes().to_vec(),
            FoundLink {
                name: name.as_bytes().to_vec(),
                target: Some(entry_target(source, name.as_bytes())),
            },
        );
    }
    found
}

fn check(manifest: Option<&str>, links: &Table<Vec<u8>, FoundLink>) -> String {
    let entries = source_entries("/s", &listed()).unwrap();
    let stub = manifest_stub(MANIFEST).unwrap();
    match validate_view("/v", "/v/package", "/s", &stub, &entries, manifest, links) {
        Ok(()) => "unchanged".to_owned(),
        Err(error) => error.message(),
    }
}

#[test]
fn changes_only_package_version_in_all_table_forms() {
    for original in [
        "# version = '9.8.7'\r\n[package]\r\nname = 'test'\r\nversion = '1.2.3' # keep\r\n[tool]\r\nversion = '9.8.7'\r\n",
        "package = { name = 'test', version = '1.2.3' }\n",
        "package.name = 'test'\npackage.version = '1.2.3'\n",
        "[package]\nversion = '''1.2.3'''\n",
        "[package]\nversion = \"1.2.3\"\n",
    ] {
        assert_eq!(
            manifest_stub(original).unwrap(),
            original.replace("1.2.3", "0.0.0")
        );
    }
}

#[test]
fn the_rest_of_a_manifest_stays_byte_for_byte() {
    let original = "# Keep release 1.2.3 and this formatting.\n[package]\nname='styled'\nversion = '1.2.3' # published version\nentrypoint = \"lib.typ\"\ndescription = 'Release 1.2.3'\nauthors = [\"Päckage Author\"]\n\n[tool.example]\nversion = '1.2.3'\n";
    assert_eq!(
        manifest_stub(original).unwrap(),
        original.replacen("version = '1.2.3'", "version = '0.0.0'", 1)
    );
    assert_eq!(
        manifest_stub("[package]\nversion = \"\"\"1.2.3\"\"\"\n").unwrap(),
        "[package]\nversion = \"\"\"0.0.0\"\"\"\n"
    );
    let cut = CutManifest {
        before: "a".to_owned(),
        token: "'x'".to_owned(),
        after: "b".to_owned(),
    };
    assert_eq!(replace_version(&cut), "a'0.0.0'b");
}

#[test]
fn the_stub_of_a_stub_is_itself() {
    for original in [
        MANIFEST,
        "package = { name = 'test', version = '1.2.3' }\n",
        "[package]\nversion = \"\\u0031.2.3\" # keep\n",
        "[package]\nversion = '0.0.0'\n",
    ] {
        let stub = manifest_stub(original).unwrap();
        let table: toml::Table = toml::from_str(&stub).unwrap();
        assert_eq!(table["package"]["version"].as_str(), Some("0.0.0"));
        assert_eq!(manifest_stub(&stub).unwrap(), stub);
    }
}

#[test]
fn manifests_without_a_version_have_no_stub() {
    assert_eq!(
        manifest_stub("[package\n").unwrap_err().message(),
        "invalid Typst package manifest"
    );
    for original in ["", "[package]\nname = 'a'\n", "[package]\nversion = 3\n"] {
        assert_eq!(
            manifest_stub(original).unwrap_err().message(),
            "package manifest must contain a string package.version"
        );
    }
}

#[test]
fn a_view_is_named_by_the_digest_of_what_it_shows() {
    let entries = source_entries("/s", &listed()).unwrap();
    assert_eq!(entries.len(), 3);
    assert!(!entries.contains_key(&b".typm".to_vec()));
    let stub = manifest_stub(MANIFEST).unwrap();
    let paths = prepare("/p/.typm", "/s", &stub, &entries);
    let mut message: Vec<u8> = Vec::new();
    for part in ["typm-package-view-v1", "/s", stub.as_str()] {
        message.extend((part.len() as u64).to_le_bytes());
        message.extend(part.as_bytes());
    }
    for (name, directory) in [("assets", 1u8), ("lib.typ", 0), ("typst.toml", 0)] {
        message.extend((name.len() as u64).to_le_bytes());
        message.extend(name.as_bytes());
        message.push(directory);
    }
    let digest = blake3::hash(&message).to_hex().to_string();
    assert_eq!(paths.stubs, "/p/.typm/stubs");
    assert_eq!(paths.view, format!("/p/.typm/stubs/{digest}"));
    assert_eq!(paths.package, format!("/p/.typm/stubs/{digest}/package"));
    assert_ne!(prepare("/p/.typm", "/t", &stub, &entries).view, paths.view);
    assert_eq!(
        source_entries("/s", &vec![]).err().unwrap().message(),
        "package manifest disappeared from /s"
    );
    assert_eq!(entry_target("/s", b"typst.toml"), b"../typst.toml");
    assert_eq!(entry_target("/s", b"lib.typ"), b"/s/lib.typ");
}

#[test]
fn refuses_changed_stub_contents_and_entry_targets() {
    let stub = manifest_stub(MANIFEST).unwrap();
    assert_eq!(check(Some(&stub), &found("/s")), "unchanged");
    for manifest in [None, Some("user data\n")] {
        assert_eq!(
            check(manifest, &found("/s")),
            "generated package manifest was changed: /v"
        );
    }
    let mut links = found("/s");
    links.remove(&b"assets".to_vec());
    assert_eq!(
        check(Some(&stub), &links),
        "generated package view entries were changed: /v/package"
    );
    for target in [None, Some(b"/s/typst.toml".to_vec())] {
        let mut links = found("/s");
        links.insert(
            b"lib.typ".to_vec(),
            FoundLink {
                name: b"lib.typ".to_vec(),
                target,
            },
        );
        assert_eq!(
            check(Some(&stub), &links),
            "generated package link was changed: /v/package/lib.typ"
        );
    }
}

#[test]
fn names_that_are_not_text_stand_in_a_view() {
    let mut names = listed();
    names.push(Listed {
        name: b"a\xff".to_vec(),
        is_directory: false,
    });
    let entries = source_entries("/s", &names).unwrap();
    assert_eq!(entries.len(), 4);
    assert_eq!(entries.key_at(0), &b"assets".to_vec());
    assert_eq!(entries.key_at(1), &b"a\xff".to_vec());
    assert_eq!(entry_target("/s", b"a\xff"), b"/s/a\xff");
    let stub = manifest_stub(MANIFEST).unwrap();
    let without = source_entries("/s", &listed()).unwrap();
    assert_ne!(
        prepare("/c", "/s", &stub, &entries).view,
        prepare("/c", "/s", &stub, &without).view
    );
    let mut told = Vec::new();
    for target in [&b"/s//a\xff"[..], b"/s/a\xfe", b"/s/a"] {
        let mut links = found("/s");
        links.insert(
            b"a\xff".to_vec(),
            FoundLink {
                name: b"a\xff".to_vec(),
                target: Some(target.to_vec()),
            },
        );
        told.push(
            match validate_view("/v", "/v/package", "/s", &stub, &entries, Some(&stub), &links) {
                Ok(()) => "unchanged".to_owned(),
                Err(error) => error.message(),
            },
        );
    }
    let changed = "generated package link was changed: /v/package/a\u{fffd}";
    assert_eq!(told, vec!["unchanged", changed, changed]);
}
