//! Paths, their order, and tables under them.

use tailfall::order::{compare_paths, sort_paths, Side};
use tailfall::path::{same_bytes, FilePath};
use tailfall::table::PathMap;

fn path(text: &str) -> FilePath {
    FilePath::new(text.as_bytes().to_vec())
}

fn components(text: &str) -> Vec<String> {
    let path = path(text);
    (0..path.component_count())
        .map(|index| String::from_utf8(path.component(index).to_vec()).unwrap())
        .collect()
}

/// The same path in the standard library.
fn standard(text: &str) -> &std::path::Path {
    std::path::Path::new(text)
}

const SAMPLES: [&str; 22] = [
    "", "/", "//", ".", "./", "./.", "..", "a", "a/", "/a", "/a/b", "a/b", "a//b/", "./a", "a/./b",
    "a/../b", "/./a", "/a/.", "a/b/c", "...", "a.b", ".a/b.",
];

#[test]
fn components_are_those_of_the_standard_library() {
    for text in SAMPLES {
        let expected: Vec<String> = standard(text)
            .components()
            .map(|component| component.as_os_str().to_str().unwrap().to_owned())
            .collect();
        assert_eq!(components(text), expected, "{text}");
        assert_eq!(path(text).is_absolute(), standard(text).is_absolute());
    }
}

#[test]
fn parents_are_those_of_the_standard_library() {
    for text in SAMPLES {
        let expected = standard(text)
            .parent()
            .map(|above| above.to_str().unwrap().as_bytes().to_vec());
        let found = path(text).parent().map(|above| above.text().to_vec());
        assert_eq!(found, expected, "{text}");
    }
}

#[test]
fn pairs_behave_as_in_the_standard_library() {
    for left in SAMPLES {
        for right in SAMPLES {
            let joined = standard(left).join(right);
            assert_eq!(
                path(left).join(right.as_bytes()).text(),
                joined.to_str().unwrap().as_bytes(),
                "{left} {right}"
            );
            let rest = standard(left)
                .strip_prefix(right)
                .ok()
                .map(|rest| rest.to_str().unwrap().as_bytes().to_vec());
            assert_eq!(
                path(left)
                    .strip_prefix(&path(right))
                    .map(|rest| rest.text().to_vec()),
                rest,
                "{left} {right}"
            );
            assert_eq!(
                path(left).starts_with(&path(right)),
                standard(left).starts_with(right)
            );
            assert_eq!(
                path(left).same_components(&path(right)),
                standard(left) == standard(right)
            );
            let side = if standard(left) < standard(right) {
                Side::Before
            } else if standard(left) == standard(right) {
                Side::Same
            } else {
                Side::After
            };
            assert_eq!(compare_paths(&path(left), &path(right)), side, "{left} {right}");
        }
    }
}

#[test]
fn stripping_undoes_joining() {
    let base = path("/var/log");
    let joined = base.join(b"app/a.log");
    assert_eq!(joined.text(), b"/var/log/app/a.log");
    assert_eq!(joined.strip_prefix(&base).unwrap().text(), b"app/a.log");
}

#[test]
fn paths_are_sorted_by_component() {
    let sorted = sort_paths(vec![
        path("/d/b.a"),
        path("/d/c"),
        path("/d/b/z"),
        path("/d/a"),
        path("/d/a"),
    ]);
    let texts: Vec<&[u8]> = sorted.iter().map(|path| path.text()).collect();
    let expected: Vec<&[u8]> = vec![b"/d/a", b"/d/a", b"/d/b/z", b"/d/b.a", b"/d/c"];
    assert_eq!(texts, expected);
    assert!(sort_paths(Vec::new()).is_empty());
}

#[test]
fn bytes_are_compared() {
    assert!(same_bytes(b"abc", b"abc"));
    assert!(!same_bytes(b"abc", b"abd"));
    assert!(!same_bytes(b"abc", b"ab"));
    assert!(same_bytes(b"", b""));
}

#[test]
fn table_goes_by_components() {
    let mut table: PathMap<u32> = PathMap::new();
    assert!(table.get(&path("/a")).is_none());
    table.insert(path("/b"), 2);
    table.insert(path("/a"), 1);
    table.insert(path("/c/"), 3);
    assert_eq!(table.get(&path("//a/")), Some(&1));
    table.insert(path("/./a"), 4);
    assert_eq!(table.get(&path("/a")), Some(&4));
    assert!(table.contains(&path("/c")));
    assert!(!table.contains(&path("c")));

    let mut kept: PathMap<()> = PathMap::new();
    kept.extend(&vec![path("/c"), path("/x"), path("/a"), path("/a")]);
    table.retain(&kept);
    assert_eq!(table.get(&path("/a")), Some(&4));
    assert_eq!(table.get(&path("/b")), None);
    assert_eq!(table.get(&path("/c")), Some(&3));
    assert_eq!(table.get(&path("/x")), None);
}

#[test]
fn clone_is_the_same_path() {
    let original = path("/a/./b/");
    let copy = original.clone();
    assert_eq!(copy.text(), original.text());
    assert_eq!(copy.component_count(), 3);
}
