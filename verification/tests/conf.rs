use openblas_build::MakeConf;

fn lines(ls: &[&str]) -> Vec<String> {
    ls.iter().map(|l| l.to_string()).collect()
}

#[test]
fn nofortran_key_sets_flag() {
    let conf = MakeConf::from_lines(&lines(&["NOFORTRAN=1"])).unwrap();
    assert!(conf.no_fortran);
}

#[test]
fn nofortran_key_counts_by_presence_not_value() {
    let conf = MakeConf::from_lines(&lines(&["NOFORTRAN=0"])).unwrap();
    assert!(conf.no_fortran);
}

#[test]
fn missing_nofortran_key_leaves_flag_clear() {
    let conf = MakeConf::from_lines(&lines(&["OSNAME=Linux"])).unwrap();
    assert!(!conf.no_fortran);
    assert_eq!(conf.os_name, "Linux");
}

#[test]
fn unrecognized_and_malformed_lines_ignored() {
    let conf = MakeConf::from_lines(&lines(&[
        "FOO=bar",
        "FOO=bar=baz",
        "",
        "OSNAME=Linux",
        "CEXTRALIB=-lm -lgfortran",
    ]))
    .unwrap();
    assert_eq!(conf.os_name, "Linux");
    assert!(!conf.no_fortran);
    assert_eq!(
        conf.c_extra_libs.libs,
        vec!["gfortran".to_string(), "m".to_string()]
    );
}

#[test]
fn later_line_overwrites_earlier() {
    let conf = MakeConf::from_lines(&lines(&["OSNAME=A", "OSNAME=B"])).unwrap();
    assert_eq!(conf.os_name, "B");
}

#[test]
fn fextralib_parsed_independently() {
    let conf = MakeConf::from_lines(&lines(&[
        "CEXTRALIB=-lc",
        "FEXTRALIB=-lgfortran -lquadmath",
    ]))
    .unwrap();
    assert_eq!(conf.c_extra_libs.libs, vec!["c".to_string()]);
    assert_eq!(
        conf.f_extra_libs.libs,
        vec!["gfortran".to_string(), "quadmath".to_string()]
    );
}

#[test]
fn empty_file_yields_default() {
    let conf = MakeConf::from_lines(&Vec::new()).unwrap();
    assert_eq!(conf.os_name, "");
    assert!(!conf.no_fortran);
    assert!(conf.c_extra_libs.libs.is_empty());
    assert!(conf.c_extra_libs.search_paths.is_empty());
    assert!(conf.f_extra_libs.libs.is_empty());
}

#[test]
fn flag_values_drop_missing_paths() {
    let conf = MakeConf::from_lines(&lines(&[
        "CEXTRALIB=-L/definitely/nonexistent/path -lm",
    ]))
    .unwrap();
    assert!(conf.c_extra_libs.search_paths.is_empty());
    assert_eq!(conf.c_extra_libs.libs, vec!["m".to_string()]);
}
