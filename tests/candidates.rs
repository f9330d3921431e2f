use split_test::file_set::{contains_path, insert_sorted_unique, resolve, ResolveError};
use split_test::path_order::path_less;

fn s(x: &str) -> String {
    String::from(x)
}

fn list(xs: &[&str]) -> Vec<String> {
    xs.iter().map(|x| s(x)).collect()
}

#[test]
fn resolve_sorts_and_removes_repeats() {
    let includes = list(&["/t/c_test.rb", "/t/a_test.rb", "/t/c_test.rb", "/t/b_test.rb", "/t/a_test.rb"]);
    let r = resolve(&includes, &Vec::new()).unwrap();
    assert_eq!(r, list(&["/t/a_test.rb", "/t/b_test.rb", "/t/c_test.rb"]));
}

#[test]
fn resolve_removes_excluded_files() {
    let includes = list(&["/t/a_test.rb", "/t/b_test.rb", "/t/c_test.rb"]);
    let excludes = list(&["/t/b_test.rb"]);
    let r = resolve(&includes, &excludes).unwrap();
    assert_eq!(r, list(&["/t/a_test.rb", "/t/c_test.rb"]));
}

#[test]
fn resolve_exclusion_of_unmatched_path_changes_nothing() {
    let includes = list(&["/t/b.rb", "/t/a.rb"]);
    let excludes = list(&["/t/z.rb"]);
    assert_eq!(resolve(&includes, &excludes).unwrap(), list(&["/t/a.rb", "/t/b.rb"]));
}

#[test]
fn resolve_fails_when_nothing_matched() {
    assert_eq!(resolve(&Vec::new(), &Vec::new()), Err(ResolveError::NoTestFilesFound));
}

#[test]
fn resolve_fails_when_everything_is_excluded() {
    let includes = list(&["/t/a.rb", "/t/b.rb"]);
    let excludes = list(&["/t/b.rb", "/t/a.rb"]);
    assert_eq!(resolve(&includes, &excludes), Err(ResolveError::NoTestFilesFound));
}

#[test]
fn resolve_does_not_depend_on_match_order() {
    let first = resolve(&list(&["/x/b", "/x/a", "/y", "/x/c"]), &list(&["/y"])).unwrap();
    let second = resolve(&list(&["/x/c", "/y", "/x/a", "/x/b", "/x/a"]), &list(&["/y"])).unwrap();
    assert_eq!(first, second);
    assert_eq!(first, list(&["/x/a", "/x/b", "/x/c"]));
}

#[test]
fn path_order_is_byte_order() {
    assert!(path_less(&s("/a/b"), &s("/a/c")));
    assert!(!path_less(&s("/a/c"), &s("/a/b")));
    assert!(path_less(&s("/a/b"), &s("/a/b/c")));
    assert!(!path_less(&s("/a/b"), &s("/a/b")));
    assert!(path_less(&s("/a/B"), &s("/a/a")));
    assert!(path_less(&s("/a/z"), &s("/a/\u{e9}")));
    assert!(path_less(&s(""), &s("/")));
}

#[test]
fn insert_sorted_unique_places_and_skips_repeats() {
    let mut v = list(&["/a", "/c"]);
    insert_sorted_unique(&mut v, s("/b"));
    assert_eq!(v, list(&["/a", "/b", "/c"]));
    insert_sorted_unique(&mut v, s("/c"));
    assert_eq!(v, list(&["/a", "/b", "/c"]));
    insert_sorted_unique(&mut v, s("/0"));
    assert_eq!(v, list(&["/0", "/a", "/b", "/c"]));
}

#[test]
fn contains_path_finds_equal_strings() {
    let v = list(&["/a", "/b"]);
    assert!(contains_path(&v, &s("/b")));
    assert!(!contains_path(&v, &s("/c")));
    assert!(!contains_path(&Vec::new(), &s("/a")));
}
