use typm::hashing::hash_parts;
use typm::link_path::{read_link_path, LinkPath};
use typm::ordered::{compare_texts, Order, Table};
use typm::path::{
    chain, components, file_name, is_absolute, join_path, parent, same_path, starts_with_path,
    strip_prefix, tidy,
};
use typm::text::{
    contains_lowered, decimal, ends_with, same_ignoring_case, starts_with, starts_with_lowered,
    trimmed,
};

const PATHS: [&str; 18] = [
    "", "/", "a", "a/", "/a", "//a//b/", "a/./b", "./a", ".", "..", "../a", "a/..", "/..", "/../a",
    "/a/b/../c", "a//b", "/a/.", "././a/./",
];

#[test]
fn paths_are_taken_apart_like_those_of_std() {
    for path in PATHS {
        let std_path = std::path::Path::new(path);
        assert_eq!(components(path).len(), std_path.components().count(), "{path}");
        assert_eq!(is_absolute(path), std_path.is_absolute(), "{path}");
        assert_eq!(
            parent(path).map(std::path::PathBuf::from),
            std_path.parent().map(std::path::PathBuf::from),
            "{path}"
        );
        assert_eq!(
            file_name(path),
            std_path.file_name().map(|p| p.to_str().unwrap().to_owned()),
            "{path}"
        );
        let ancestors: Vec<std::path::PathBuf> = std_path
            .ancestors()
            .map(std::path::PathBuf::from)
            .collect();
        let mut outward: Vec<std::path::PathBuf> =
            chain(path).iter().map(std::path::PathBuf::from).collect();
        outward.reverse();
        assert_eq!(outward, ancestors, "{path}");
        if is_absolute(path) {
            assert_eq!(
                tidy(path),
                std::path::absolute(std_path).unwrap().to_str().unwrap(),
                "{path}"
            );
        }
        for other in PATHS {
            let std_other = std::path::Path::new(other);
            assert_eq!(
                join_path(path, other),
                std_path.join(std_other).to_str().unwrap(),
                "{path} {other}"
            );
            assert_eq!(same_path(path, other), std_path == std_other, "{path} {other}");
            assert_eq!(
                starts_with_path(path, other),
                std_path.starts_with(std_other),
                "{path} {other}"
            );
            let stripped = strip_prefix(path, other);
            let expected = std_path.strip_prefix(std_other).ok();
            assert_eq!(stripped.is_some(), expected.is_some(), "{path} {other}");
            if let (Some(stripped), Some(expected)) = (stripped, expected) {
                assert_eq!(std::path::Path::new(&stripped), expected, "{path} {other}");
            }
        }
    }
}

#[test]
fn texts_are_ordered_like_those_of_std() {
    let texts = ["", "a", "ab", "b", "B", "é", "z\u{10ffff}", "zz", "\u{ffff}", "\u{10000}"];
    for a in texts {
        for b in texts {
            let order = compare_texts(a, b);
            assert_eq!(matches!(order, Order::Less), a < b, "{a} {b}");
            assert_eq!(matches!(order, Order::Equal), a == b, "{a} {b}");
        }
    }
    let mut table: Table<String, u32> = Table::new();
    for (i, text) in texts.iter().enumerate() {
        assert!(!table.insert((*text).to_owned(), i as u32));
    }
    assert!(table.insert("ab".to_owned(), 99));
    let mut sorted: Vec<&str> = texts.to_vec();
    sorted.sort();
    for (i, text) in sorted.iter().enumerate() {
        assert_eq!(table.key_at(i), text);
    }
    assert_eq!(table.get(&"ab".to_owned()), Some(&99));
    assert_eq!(table.remove(&"ab".to_owned()), Some(99));
    assert_eq!(table.remove(&"ab".to_owned()), None);
    assert_eq!(table.len(), texts.len() - 1);
}

#[test]
fn texts_are_compared_like_those_of_std() {
    let texts = ["", "a", "A", "Ab", "aB", "sha-256", "SHA-256 x", "é", "É", " a\t", "\u{2003}b\n"];
    for a in texts {
        assert_eq!(trimmed(a), a.trim(), "{a}");
        for b in texts {
            assert_eq!(starts_with(a, b), a.starts_with(b), "{a} {b}");
            assert_eq!(ends_with(a, b), a.ends_with(b), "{a} {b}");
            assert_eq!(
                contains_lowered(a, b),
                a.to_ascii_lowercase().contains(b),
                "{a} {b}"
            );
            assert_eq!(
                starts_with_lowered(a, b),
                a.starts_with(&b.to_ascii_lowercase()),
                "{a} {b}"
            );
            assert_eq!(same_ignoring_case(a, b), a.eq_ignore_ascii_case(b), "{a} {b}");
        }
    }
    for n in [0, 7, 10, 4096, u64::MAX] {
        assert_eq!(decimal(n), n.to_string());
    }
}

#[test]
fn link_paths_read_back() {
    let place = LinkPath {
        namespace: "typm".to_owned(),
        name: "a".to_owned(),
        version: "0.0.0".to_owned(),
    };
    let again = read_link_path(&place.text()).unwrap();
    assert_eq!(again.namespace, "typm");
    assert_eq!(again.name, "a");
    assert_eq!(again.version, "0.0.0");
    assert!(read_link_path("typm/a").is_none());
    assert!(read_link_path("typm/../0.0.0").is_none());
}

#[test]
fn digests_tell_the_parts_apart() {
    assert_ne!(hash_parts(&["ab", "c"]), hash_parts(&["a", "bc"]));
    assert_ne!(hash_parts(&["ab", ""]), hash_parts(&["ab"]));
    assert_eq!(
        hash_parts(&[]),
        "af1349b9f5f9a1a6a0404dea36dcc9499bcb25c9adc112b7cc9a93cae41f3262"
    );
}
