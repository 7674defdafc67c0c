//! Operands and patterns.

use tailfall::error::{Error, IoError, IoErrorKind};
use tailfall::glob::nests_shallowly;
use tailfall::path::FilePath;
use tailfall::prefix::{
    component_has_magic, existing_directory_ancestor, make_absolute, pattern_has_magic,
    static_prefix,
};
use tailfall::watch::{RecursiveMode, WatchSpec};

fn path(text: &str) -> FilePath {
    FilePath::new(text.as_bytes().to_vec())
}

/// What to watch where the given paths are directories and the current one is `/home/me`.
fn watch(operand: Option<&str>, directories: &[&str]) -> Result<WatchSpec, Error> {
    let probe =
        |path: &FilePath| directories.iter().any(|directory| directory.as_bytes() == path.text());
    WatchSpec::from_operand(operand.map(path), Ok(path("/home/me")), &probe)
}

fn root(spec: &WatchSpec) -> String {
    String::from_utf8(spec.root().text().to_vec()).unwrap()
}

const HOME: [&str; 3] = ["/", "/home", "/home/me"];

#[test]
fn magic_is_recognised() {
    for pattern in ["*", "a?", "[ab]", "x{a,b}", "é*"] {
        assert!(pattern_has_magic(pattern));
        assert!(component_has_magic(pattern.as_bytes()));
    }
    for plain in ["", "a.log", "a]b}", "\\", "é"] {
        assert!(!pattern_has_magic(plain));
        assert!(!component_has_magic(plain.as_bytes()));
    }
    assert!(component_has_magic(&[0xff, b'*']));
    assert!(!component_has_magic(&[0xff, 0xc3]));
}

#[test]
fn static_prefix_stops_before_the_pattern() {
    assert_eq!(static_prefix(&path("/var/log/*.log")).text(), b"/var/log");
    assert_eq!(static_prefix(&path("/var//log/./a/")).text(), b"/var/log/a");
    assert_eq!(static_prefix(&path("/*/a")).text(), b"/");
    assert_eq!(static_prefix(&path("*/a")).text(), b"/");
    assert_eq!(static_prefix(&path("")).text(), b"/");
    assert_eq!(static_prefix(&path("a/b?/c")).text(), b"a");
}

#[test]
fn paths_are_made_absolute() {
    assert_eq!(
        make_absolute(&path("logs/a"), Ok(path("/home/me")))
            .unwrap()
            .text(),
        b"/home/me/logs/a"
    );
    let failure = || IoError {
        kind: IoErrorKind::NotFound,
        message: "no directory".to_owned(),
    };
    assert_eq!(
        make_absolute(&path("/a"), Err(failure())).unwrap().text(),
        b"/a"
    );
    match make_absolute(&path("a"), Err(failure())) {
        Err(Error::Io(error)) => assert_eq!(error.message, "no directory"),
        other => panic!("{other:?}"),
    }
}

#[test]
fn lowest_directory_is_found() {
    let probe = |path: &FilePath| path.text() == b"/var" || path.text() == b"/";
    let found = existing_directory_ancestor(&path("/var/log/x"), &probe).unwrap();
    assert_eq!(found.text(), b"/var");
    let never = |_: &FilePath| false;
    match existing_directory_ancestor(&path("/var/log"), &never) {
        Err(Error::InvalidOperand(message)) => {
            assert_eq!(message, "no existing directory for /var/log")
        }
        other => panic!("{other:?}"),
    }
}

#[test]
fn directory_operand_is_watched_as_such() {
    let spec = watch(Some("/home"), &HOME).unwrap();
    assert!(matches!(spec, WatchSpec::Directory { .. }));
    assert_eq!(root(&spec), "/home");
    assert_eq!(spec.recursive_mode(), RecursiveMode::NonRecursive);
    assert!(!spec.searches_below());
    assert!(spec.is_match(&path("/home/anything")));
}

#[test]
fn current_directory_is_the_default() {
    let spec = watch(None, &["/home/me/."]).unwrap();
    assert!(matches!(spec, WatchSpec::Directory { .. }));
    assert_eq!(root(&spec), "/home/me/.");
    let spec = watch(Some("."), &["/home/me/."]).unwrap();
    assert!(matches!(spec, WatchSpec::Directory { .. }));
    assert_eq!(root(&spec), "/home/me/.");
}

#[test]
fn pattern_is_matched_below_its_root() {
    let spec = watch(Some("*.log"), &HOME).unwrap();
    assert_eq!(root(&spec), "/home/me");
    assert_eq!(spec.recursive_mode(), RecursiveMode::NonRecursive);
    assert!(spec.is_match(&path("/home/me/a.log")));
    assert!(!spec.is_match(&path("/home/me/a.txt")));
    assert!(!spec.is_match(&path("/home/me/b/a.log")));
    assert!(!spec.is_match(&path("/home/you/a.log")));
}

#[test]
fn patterns_reach_below_where_they_have_to() {
    let spec = watch(Some("**/*.log"), &HOME).unwrap();
    assert_eq!(spec.recursive_mode(), RecursiveMode::Recursive);
    assert!(spec.is_match(&path("/home/me/a.log")));
    assert!(spec.is_match(&path("/home/me/b/c/a.log")));

    let spec = watch(Some("*/a.log"), &HOME).unwrap();
    assert_eq!(spec.recursive_mode(), RecursiveMode::Recursive);
    assert!(spec.is_match(&path("/home/me/b/a.log")));
    assert!(!spec.is_match(&path("/home/me/b/c/a.log")));

    // The directory may come later.
    let spec = watch(Some("logs/*.log"), &HOME).unwrap();
    assert_eq!(root(&spec), "/home/me");
    assert_eq!(spec.recursive_mode(), RecursiveMode::Recursive);
    assert!(spec.is_match(&path("/home/me/logs/a.log")));
    assert!(!spec.is_match(&path("/home/me/a.log")));

    let spec = watch(Some("a[0-9].{log,txt}"), &HOME).unwrap();
    assert_eq!(spec.recursive_mode(), RecursiveMode::NonRecursive);
    assert!(spec.is_match(&path("/home/me/a7.txt")));
    assert!(!spec.is_match(&path("/home/me/ab.txt")));
}

#[test]
fn plain_name_is_watched_in_its_directory() {
    let spec = watch(Some("/home/me/a.log"), &HOME).unwrap();
    assert_eq!(root(&spec), "/home/me");
    assert_eq!(spec.recursive_mode(), RecursiveMode::NonRecursive);
    assert!(spec.is_match(&path("/home/me/a.log")));
    assert!(!spec.is_match(&path("/home/me/a_log")));
}

#[test]
fn bad_pattern_is_refused() {
    match watch(Some("[a"), &HOME) {
        Err(Error::InvalidPattern(message)) => assert!(message.contains("[a")),
        other => panic!("{other:?}"),
    }
    assert!(matches!(
        watch(Some("{a"), &HOME),
        Err(Error::InvalidPattern(_))
    ));
}

#[test]
fn refusal_of_a_compiled_pattern_is_handed_on() {
    match WatchSpec::from_compiled(path("/"), false, Err("bad".to_owned())) {
        Err(Error::InvalidPattern(message)) => assert_eq!(message, "bad"),
        other => panic!("{other:?}"),
    }
    let spec = WatchSpec::from_compiled(path("/r"), true, Ok(globset::GlobSet::empty())).unwrap();
    assert_eq!(root(&spec), "/r");
    assert!(spec.searches_below());
    assert!(!spec.is_match(&path("/r/a")));
}

#[test]
fn operand_has_to_be_text() {
    let odd = FilePath::new(vec![b'/', 0xff]);
    let probe = |path: &FilePath| path.text() == b"/";
    match WatchSpec::from_operand(Some(odd), Ok(path("/")), &probe) {
        Err(Error::InvalidOperand(message)) => {
            assert_eq!(message, "the pattern must be valid UTF-8")
        }
        other => panic!("{other:?}"),
    }
}

#[test]
fn directory_that_is_no_text_can_be_watched() {
    let odd = FilePath::new(vec![b'/', 0xff]);
    let probe = |_: &FilePath| true;
    let spec = WatchSpec::from_operand(Some(odd), Ok(path("/")), &probe).unwrap();
    assert_eq!(spec.root().text(), [b'/', 0xff]);
}

#[test]
fn pattern_below_a_directory_that_is_no_text() {
    // The root is taken off before the pattern has to be text; where it is not, it is refused.
    let home = FilePath::new(vec![b'/', 0xff]);
    let probe = |path: &FilePath| path.text() == [b'/', 0xff];
    let spec = WatchSpec::from_operand(Some(path("*.log")), Ok(home), &probe).unwrap();
    assert!(spec.is_match(&FilePath::new(b"/\xff/a.log".to_vec())));

    let home = FilePath::new(vec![b'/', 0xff]);
    let probe = |path: &FilePath| path.text() == b"/";
    match WatchSpec::from_operand(Some(path("*.log")), Ok(home), &probe) {
        Err(Error::InvalidOperand(message)) => {
            assert_eq!(message, "the pattern must be valid UTF-8")
        }
        other => panic!("{other:?}"),
    }
}

#[test]
fn operand_without_a_directory_is_refused() {
    match watch(Some("/a/*.log"), &[]) {
        Err(Error::InvalidOperand(message)) => {
            assert_eq!(message, "no existing directory for /a")
        }
        other => panic!("{other:?}"),
    }
}

#[test]
fn unknown_current_directory_is_an_error() {
    let probe = |_: &FilePath| true;
    let failure = IoError {
        kind: IoErrorKind::NotFound,
        message: "gone".to_owned(),
    };
    match WatchSpec::from_operand(None, Err(failure), &probe) {
        Err(Error::Io(error)) => assert_eq!(error.message, "gone"),
        other => panic!("{other:?}"),
    }
}

fn nested(depth: usize) -> String {
    format!("{}b{}", "{a,".repeat(depth), "}".repeat(depth))
}

#[test]
fn pattern_that_cannot_be_compiled_is_refused() {
    // Too deep for a regular expression.
    assert!(matches!(
        watch(Some(&nested(400)), &HOME),
        Err(Error::InvalidPattern(_))
    ));
    // Too deep to be looked at.
    for depth in [1001, 100_000] {
        match watch(Some(&nested(depth)), &HOME) {
            Err(Error::InvalidPattern(message)) => {
                assert_eq!(message, "the pattern is too long or too deeply nested")
            }
            other => panic!("{other:?}"),
        }
    }
    let spec = watch(Some(&nested(100)), &HOME).unwrap();
    assert!(spec.is_match(&path("/home/me/a")));
    assert!(spec.is_match(&path("/home/me/b")));
    assert!(!spec.is_match(&path("/home/me/c")));
}

#[test]
fn nesting_is_counted_as_patterns_are_read() {
    assert!(nests_shallowly(""));
    assert!(nests_shallowly(&nested(1000)));
    assert!(!nests_shallowly(&nested(1001)));
    // Groups side by side.
    assert!(nests_shallowly(&"{a,b}".repeat(5000)));
    // Plain characters.
    assert!(nests_shallowly(&"\\{".repeat(5000)));
    // Characters of a class, where a first `]` and one behind a negation are plain.
    for lead in ["[a", "[]", "[!]", "[^]", "[!!"] {
        assert!(nests_shallowly(&format!("{lead}{}]", "{".repeat(5000))));
        assert!(!nests_shallowly(&format!("{lead}]{}", "{".repeat(5000))));
    }
    assert!(!nests_shallowly(&format!("[\\]{}", "{".repeat(5000))));
    // The pattern is refused at the first `}` that closes nothing.
    assert!(nests_shallowly(&format!("}}{}", "{".repeat(5000))));
}

#[test]
fn many_groups_side_by_side_are_accepted() {
    let spec = watch(Some(&"{a,b}".repeat(200)), &HOME).unwrap();
    assert!(spec.is_match(&path(&format!("/home/me/{}", "ab".repeat(100)))));
}
