use openblas_build::Error;
use openblas_build::LibInspect;

fn lines(ls: &[&str]) -> Vec<String> {
    ls.iter().map(|l| l.to_string()).collect()
}

fn report(nm: &[&str], objdump: &[&str]) -> LibInspect {
    LibInspect::from_output("lib.so".to_string(), &lines(nm), &lines(objdump))
}

#[test]
fn t_symbol_detects_cblas() {
    let r = report(&["0000000000909b30 T cblas_dgemm"], &[]);
    assert!(r.has_cblas());
    assert_eq!(r.symbols, vec!["cblas_dgemm".to_string()]);
}

#[test]
fn non_t_symbol_does_not_detect_cblas() {
    let r = report(&["0000000000909b30 D cblas_dgemm"], &[]);
    assert!(!r.has_cblas());
    assert!(r.symbols.is_empty());
}

#[test]
fn lapack_needs_exact_symbol() {
    let r = report(&["0000000000909b30 T dsyev_"], &[]);
    assert!(r.has_lapack());
    let r2 = report(&["0000000000909b30 T dsyevx_"], &[]);
    assert!(!r2.has_lapack());
}

#[test]
fn lapacke_detected_by_prefix() {
    let r = report(&["0000000000909b30 T LAPACKE_dsyev"], &[]);
    assert!(r.has_lapacke());
    let r2 = report(&["0000000000909b30 T dsyev_"], &[]);
    assert!(!r2.has_lapacke());
}

#[test]
fn symbols_sorted_and_deduplicated() {
    let r = report(
        &[
            "2 T zupmtr_",
            "1 T cblas_dgemm",
            "2 T zupmtr_",
            "3 T dsyev_",
        ],
        &[],
    );
    assert_eq!(
        r.symbols,
        vec![
            "cblas_dgemm".to_string(),
            "dsyev_".to_string(),
            "zupmtr_".to_string()
        ]
    );
}

#[test]
fn malformed_nm_lines_skipped() {
    let r = report(
        &["garbage", "a b c d", "0x1 t local_", "   ", "", "0x2 T"],
        &[],
    );
    assert!(r.symbols.is_empty());
}

#[test]
fn needed_lines_parsed_and_trimmed() {
    let r = report(
        &[],
        &[
            "Dynamic Section:",
            "  NEEDED               libm.so.6",
            "  SONAME               libopenblas.so.0",
        ],
    );
    assert_eq!(r.libs, vec!["libm.so.6".to_string()]);
}

#[test]
fn dependencies_sorted_and_deduplicated() {
    let r = report(
        &[],
        &[
            "  NEEDED  libm.so.6",
            "  NEEDED  libc.so.6",
            "  NEEDED  libm.so.6",
        ],
    );
    assert_eq!(r.libs, vec!["libc.so.6".to_string(), "libm.so.6".to_string()]);
}

#[test]
fn has_lib_matches_stem_exactly() {
    let r = report(&[], &["  NEEDED  libm.so.6", "  NEEDED  libmfoo.so"]);
    assert!(r.has_lib("m"));
    assert!(r.has_lib("mfoo"));
    assert!(!r.has_lib("mf"));
    assert!(!r.has_lib("c"));
}

#[test]
fn has_lib_without_extension() {
    let r = report(&[], &["  NEEDED  libz"]);
    assert!(r.has_lib("z"));
    assert!(!r.has_lib("libz"));
}

#[test]
fn needed_marker_stripped_once() {
    let r = report(&[], &["NEEDEDNEEDED libm.so"]);
    assert_eq!(r.libs, vec!["NEEDED libm.so".to_string()]);
}

#[test]
fn existence_answer_decides_the_result() {
    let p = "somewhere/lib.so".to_string();
    assert!(LibInspect::exists_to_result(&p, true).is_ok());
    match LibInspect::exists_to_result(&p, false) {
        Err(Error::LibraryNotExist { path }) => assert_eq!(path, p),
        _ => panic!("expected the not-found error"),
    }
}

#[test]
fn missing_binary_is_reported() {
    let r = LibInspect::require_exists(&"/definitely/nonexistent/binary".to_string());
    match r {
        Err(Error::LibraryNotExist { path }) => {
            assert_eq!(path, "/definitely/nonexistent/binary")
        },
        _ => panic!("expected the not-found error"),
    }
    assert!(LibInspect::require_exists(&"/".to_string()).is_ok());
}

#[test]
fn empty_output_yields_empty_report() {
    let r = report(&[], &[]);
    assert!(r.symbols.is_empty());
    assert!(r.libs.is_empty());
    assert!(!r.has_cblas());
    assert!(!r.has_lapack());
    assert!(!r.has_lapacke());
    assert!(!r.has_lib("m"));
}
