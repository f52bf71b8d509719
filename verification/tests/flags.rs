use openblas_build::LinkFlags;
use openblas_build::as_sorted_vec;

#[test]
fn libs_sorted_and_deduplicated() {
    let info = LinkFlags::parse("-lc -la -lc").unwrap();
    assert_eq!(info.libs, vec!["a".to_string(), "c".to_string()]);
    assert!(info.search_paths.is_empty());
}

#[test]
fn nonexistent_search_path_dropped() {
    let info = LinkFlags::parse("-L/definitely/nonexistent/path -lc").unwrap();
    assert!(info.search_paths.is_empty());
    assert_eq!(info.libs, vec!["c".to_string()]);
}

#[test]
fn reordering_tokens_gives_identical_output() {
    let a = LinkFlags::parse("-L/ -L/usr -lc -ld").unwrap();
    let b = LinkFlags::parse("-L/usr -L/ -ld -lc").unwrap();
    assert_eq!(a.search_paths, b.search_paths);
    assert_eq!(a.libs, b.libs);
    assert_eq!(a.libs, vec!["c".to_string(), "d".to_string()]);
    assert_eq!(a.search_paths.len(), 2);
}

#[test]
fn equivalent_paths_collapse_after_canonicalization() {
    let info = LinkFlags::parse("-L/. -L/").unwrap();
    assert_eq!(info.search_paths, vec!["/".to_string()]);
}

#[test]
fn empty_input_yields_empty_result() {
    let info = LinkFlags::parse("").unwrap();
    assert!(info.search_paths.is_empty());
    assert!(info.libs.is_empty());
}

#[test]
fn unrecognized_tokens_ignored() {
    let info = LinkFlags::parse("-O2 -Wall -lm foo.o").unwrap();
    assert!(info.search_paths.is_empty());
    assert_eq!(info.libs, vec!["m".to_string()]);
}

#[test]
fn lib_prefix_stripped_once() {
    let info = LinkFlags::parse("-l-lm").unwrap();
    assert_eq!(info.libs, vec!["-lm".to_string()]);
}

#[test]
fn default_is_empty() {
    let info = LinkFlags::default();
    assert!(info.search_paths.is_empty());
    assert!(info.libs.is_empty());
}

#[test]
fn as_sorted_vec_sorts_and_deduplicates() {
    let v = vec!["b".to_string(), "a".to_string(), "b".to_string(), "aa".to_string()];
    let r = as_sorted_vec(v);
    assert_eq!(r, vec!["a".to_string(), "aa".to_string(), "b".to_string()]);
}
