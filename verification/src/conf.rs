//! Parsing of `Makefile.conf`, the `key=value` file that the OpenBLAS make
//! system generates.
//!
//! Lines are read in order; a line that does not split on `=` into exactly
//! two parts is skipped, as is any unrecognized key. A later line carrying
//! a recognized key overwrites an earlier one. `NOFORTRAN` is a
//! presence-only switch: its value is ignored.

use vstd::prelude::*;
use vstd::string::*;

use crate::error::Error;
use crate::flags::{has_path_token, lib_names, parse_outcome, path_name, path_prefix, LinkFlags};
use crate::order::{lemma_sorted_unique, sorted_strict, view_set};
use crate::text::{is_prefix, split_char, split_char_exec, str_eq};

verus! {

pub open spec fn key_osname() -> Seq<char> {
    seq!['O', 'S', 'N', 'A', 'M', 'E']
}

pub open spec fn key_nofortran() -> Seq<char> {
    seq!['N', 'O', 'F', 'O', 'R', 'T', 'R', 'A', 'N']
}

pub open spec fn key_cextralib() -> Seq<char> {
    seq!['C', 'E', 'X', 'T', 'R', 'A', 'L', 'I', 'B']
}

pub open spec fn key_fextralib() -> Seq<char> {
    seq!['F', 'E', 'X', 'T', 'R', 'A', 'L', 'I', 'B']
}

/// The line is a recognized `key=value` pair for `key`: it splits on `=`
/// into exactly two parts, the first being `key`.
pub open spec fn has_key(line: Seq<char>, key: Seq<char>) -> bool {
    split_char(line, '=').len() == 2 && split_char(line, '=')[0] == key
}

/// The value part of a `key=value` line.
pub open spec fn value_of(line: Seq<char>) -> Seq<char> {
    split_char(line, '=')[1]
}

/// The value of the last line carrying `key`, if any line does.
pub open spec fn last_value(lines: Seq<String>, key: Seq<char>) -> Option<Seq<char>>
    decreases lines.len(),
{
    if lines.len() == 0 {
        None
    } else if has_key(lines.last()@, key) {
        Some(value_of(lines.last()@))
    } else {
        last_value(lines.drop_last(), key)
    }
}

/// Some line carries the `NOFORTRAN` key.
pub open spec fn any_nofortran(lines: Seq<String>) -> bool {
    exists|i: int| 0 <= i < lines.len() && has_key(#[trigger] lines[i]@, key_nofortran())
}

/// No flag-valued line names a `-L` search path, so no flag parse can
/// fail.
pub open spec fn flag_values_have_no_paths(lines: Seq<String>) -> bool {
    forall|i: int|
        0 <= i < lines.len() && (has_key(#[trigger] lines[i]@, key_cextralib()) || has_key(
            lines[i]@,
            key_fextralib(),
        )) ==> !has_path_token(split_char(value_of(lines[i]@), ' '))
}

/// The failing path names a `-L` token of some flag-valued line's value.
pub open spec fn err_names_flag_path(lines: Seq<String>, path: Seq<char>) -> bool {
    exists|i: int, j: int|
        0 <= i < lines.len() && (has_key(lines[i]@, key_cextralib()) || has_key(
            lines[i]@,
            key_fextralib(),
        )) && 0 <= j < split_char(value_of(lines[i]@), ' ').len() && is_prefix(
            path_prefix(),
            #[trigger] split_char(value_of(lines[i]@), ' ')[j],
        ) && path == path_name(split_char(value_of(lines[i]@), ' ')[j])
}

/// `f` is what parsing the flag value `v` yields: empty when no line
/// supplied a value, and otherwise a sorted, deduplicated record whose
/// `libs` are exactly the `-l` names of the value and whose
/// `search_paths` are what some vector of per-token filesystem answers
/// grants the value's `-L` tokens.
pub open spec fn flags_match(f: LinkFlags, v: Option<Seq<char>>) -> bool {
    match v {
        None => f.search_paths@.len() == 0 && f.libs@.len() == 0,
        Some(val) => sorted_strict(f.libs@) && view_set(f.libs@) == lib_names(
            split_char(val, ' '),
        ) && sorted_strict(f.search_paths@) && (!has_path_token(split_char(val, ' '))
            ==> f.search_paths@.len() == 0) && (exists|
            on_disk: Seq<bool>,
            canon: Seq<Option<Seq<char>>>,
        |
            on_disk.len() == split_char(val, ' ').len() && canon.len() == split_char(
                val,
                ' ',
            ).len() && #[trigger] parse_outcome(split_char(val, ' '), on_disk, canon, Ok(f))),
    }
}

proof fn lemma_last_value_step(lines: Seq<String>, i: int, key: Seq<char>)
    requires
        0 <= i < lines.len(),
    ensures
        last_value(lines.take(i + 1), key) == (if has_key(lines[i]@, key) {
            Some(value_of(lines[i]@))
        } else {
            last_value(lines.take(i), key)
        }),
{
    let t1 = lines.take(i + 1);
    assert(t1.last() == lines[i]);
    assert(t1.drop_last() =~= lines.take(i));
}

proof fn lemma_any_nofortran_step(lines: Seq<String>, i: int)
    requires
        0 <= i < lines.len(),
    ensures
        any_nofortran(lines.take(i + 1)) == (any_nofortran(lines.take(i)) || has_key(
            lines[i]@,
            key_nofortran(),
        )),
{
    let t0 = lines.take(i);
    let t1 = lines.take(i + 1);
    if any_nofortran(t1) {
        let k = choose|k: int| 0 <= k < t1.len() && has_key(#[trigger] t1[k]@, key_nofortran());
        if k < i {
            assert(t0[k]@ == lines[k]@);
            assert(any_nofortran(t0));
        } else {
            assert(t1[k]@ == lines[i]@);
        }
    }
    if any_nofortran(t0) {
        let k = choose|k: int| 0 <= k < t0.len() && has_key(#[trigger] t0[k]@, key_nofortran());
        assert(t1[k]@ == lines[k]@);
        assert(t0[k]@ == lines[k]@);
        assert(any_nofortran(t1));
    }
    if has_key(lines[i]@, key_nofortran()) {
        assert(t1[i]@ == lines[i]@);
        assert(any_nofortran(t1));
    }
}

/// The semantically relevant contents of a generated `Makefile.conf`.
#[derive(Debug, Clone)]
pub struct MakeConf {
    /// Value of the last `OSNAME` line, or empty.
    pub os_name: String,
    /// Whether a `NOFORTRAN` line is present, whatever its value.
    pub no_fortran: bool,
    /// Parsed value of the last `CEXTRALIB` line, or empty.
    pub c_extra_libs: LinkFlags,
    /// Parsed value of the last `FEXTRALIB` line, or empty.
    pub f_extra_libs: LinkFlags,
}

impl Default for MakeConf {
    /// The configuration of an empty file: everything absent.
    fn default() -> (r: Self)
        ensures
            r.os_name@.len() == 0,
            r.no_fortran == false,
            r.c_extra_libs.search_paths@.len() == 0,
            r.c_extra_libs.libs@.len() == 0,
            r.f_extra_libs.search_paths@.len() == 0,
            r.f_extra_libs.libs@.len() == 0,
    {
        MakeConf {
            os_name: String::new(),
            no_fortran: false,
            c_extra_libs: LinkFlags::default(),
            f_extra_libs: LinkFlags::default(),
        }
    }
}

impl MakeConf {
    /// Populates a configuration record from the lines of a configuration
    /// file, in order.
    ///
    /// Only `OSNAME`, `NOFORTRAN`, `CEXTRALIB` and `FEXTRALIB` lines
    /// matter; malformed lines and unrecognized keys are skipped, never
    /// errors. The one failure is a flag value whose existing `-L` path
    /// cannot be canonicalized; a file without `-L` tokens in its flag
    /// values parses without error.
    pub fn from_lines(lines: &Vec<String>) -> (r: Result<MakeConf, Error>)
        ensures
            (r matches Ok(m) ==> {
                &&& m.no_fortran == any_nofortran(lines@)
                &&& m.os_name@ == (match last_value(lines@, key_osname()) {
                    Some(v) => v,
                    None => Seq::<char>::empty(),
                })
                &&& flags_match(m.c_extra_libs, last_value(lines@, key_cextralib()))
                &&& flags_match(m.f_extra_libs, last_value(lines@, key_fextralib()))
            }),
            (r matches Err(e) ==> e is CannotCanonicalizePath && err_names_flag_path(
                lines@,
                e->CannotCanonicalizePath_path@,
            )),
            (flag_values_have_no_paths(lines@) ==> r is Ok),
    {
        let mut detail = MakeConf::default();
        let mut i: usize = 0;
        proof {
            assert(lines@.take(0) =~= Seq::<String>::empty());
        }
        while i < lines.len()
            invariant
                i <= lines@.len(),
                detail.no_fortran == any_nofortran(lines@.take(i as int)),
                detail.os_name@ == (match last_value(lines@.take(i as int), key_osname()) {
                    Some(v) => v,
                    None => Seq::<char>::empty(),
                }),
                flags_match(detail.c_extra_libs, last_value(lines@.take(i as int), key_cextralib())),
                flags_match(detail.f_extra_libs, last_value(lines@.take(i as int), key_fextralib())),
            decreases lines@.len() - i,
        {
            proof {
                reveal_strlit("OSNAME");
                reveal_strlit("NOFORTRAN");
                reveal_strlit("CEXTRALIB");
                reveal_strlit("FEXTRALIB");
                assert("OSNAME"@ =~= key_osname());
                assert("NOFORTRAN"@ =~= key_nofortran());
                assert("CEXTRALIB"@ =~= key_cextralib());
                assert("FEXTRALIB"@ =~= key_fextralib());
            }
            let ghost lv = lines@[i as int]@;
            let parts = split_char_exec(lines[i].as_str(), '=');
            if parts.len() == 2 {
                proof {
                    assert(parts@[0]@ == split_char(lv, '=')[0]);
                    assert(parts@[1]@ == split_char(lv, '=')[1]);
                }
                if str_eq(parts[0].as_str(), "OSNAME") {
                    detail.os_name = parts[1].clone();
                } else if str_eq(parts[0].as_str(), "NOFORTRAN") {
                    detail.no_fortran = true;
                } else if str_eq(parts[0].as_str(), "CEXTRALIB") {
                    match LinkFlags::parse(parts[1].as_str()) {
                        Ok(f) => {
                            detail.c_extra_libs = f;
                        },
                        Err(e) => {
                            proof {
                                assert(has_key(lines@[i as int]@, key_cextralib()));
                                let toksv = split_char(value_of(lv), ' ');
                                let j = choose|j: int|
                                    0 <= j < toksv.len() && is_prefix(
                                        path_prefix(),
                                        #[trigger] toksv[j],
                                    ) && e->CannotCanonicalizePath_path@ == path_name(toksv[j]);
                                assert(err_names_flag_path(
                                    lines@,
                                    e->CannotCanonicalizePath_path@,
                                ));
                                assert(has_path_token(toksv));
                                assert(!flag_values_have_no_paths(lines@));
                            }
                            return Err(e);
                        },
                    }
                } else if str_eq(parts[0].as_str(), "FEXTRALIB") {
                    match LinkFlags::parse(parts[1].as_str()) {
                        Ok(f) => {
                            detail.f_extra_libs = f;
                        },
                        Err(e) => {
                            proof {
                                assert(has_key(lines@[i as int]@, key_fextralib()));
                                let toksv = split_char(value_of(lv), ' ');
                                let j = choose|j: int|
                                    0 <= j < toksv.len() && is_prefix(
                                        path_prefix(),
                                        #[trigger] toksv[j],
                                    ) && e->CannotCanonicalizePath_path@ == path_name(toksv[j]);
                                assert(err_names_flag_path(
                                    lines@,
                                    e->CannotCanonicalizePath_path@,
                                ));
                                assert(has_path_token(toksv));
                                assert(!flag_values_have_no_paths(lines@));
                            }
                            return Err(e);
                        },
                    }
                }
            }
            proof {
                lemma_any_nofortran_step(lines@, i as int);
                lemma_last_value_step(lines@, i as int, key_osname());
                lemma_last_value_step(lines@, i as int, key_cextralib());
                lemma_last_value_step(lines@, i as int, key_fextralib());
            }
            i = i + 1;
        }
        proof {
            assert(lines@.take(lines@.len() as int) =~= lines@);
        }
        Ok(detail)
    }
}

/// One of the four keys that parsing recognizes.
pub open spec fn is_recognized_key(key: Seq<char>) -> bool {
    key == key_osname() || key == key_nofortran() || key == key_cextralib() || key
        == key_fextralib()
}

/// The line carries a recognized key; anything else — an empty line, a
/// line without exactly one `=`, an unrecognized key — is what parsing
/// ignores.
pub open spec fn is_recognized_line(l: String) -> bool {
    has_key(l@, key_osname()) || has_key(l@, key_nofortran()) || has_key(l@, key_cextralib())
        || has_key(l@, key_fextralib())
}

/// The lines that parsing reads, in order: the list with every ignored
/// line removed.
pub open spec fn recognized_only(lines: Seq<String>) -> Seq<String>
    decreases lines.len(),
{
    if lines.len() == 0 {
        Seq::empty()
    } else if is_recognized_line(lines.last()) {
        recognized_only(lines.drop_last()).push(lines.last())
    } else {
        recognized_only(lines.drop_last())
    }
}

/// Removing the ignored lines moves no recognized key's last value and
/// adds or removes no `NOFORTRAN` line.
pub proof fn lemma_recognized_only_preserves(lines: Seq<String>)
    ensures
        any_nofortran(recognized_only(lines)) == any_nofortran(lines),
        forall|key: Seq<char>|
            is_recognized_key(key) ==> #[trigger] last_value(recognized_only(lines), key)
                == last_value(lines, key),
    decreases lines.len(),
{
    if lines.len() > 0 {
        let l = lines.last();
        let rest = lines.drop_last();
        lemma_recognized_only_preserves(rest);
        assert(lines =~= rest.push(l));
        if any_nofortran(lines) {
            let k = choose|k: int| 0 <= k < lines.len() && has_key(#[trigger] lines[k]@, key_nofortran());
            if k < rest.len() {
                assert(rest[k]@ == lines[k]@);
                assert(any_nofortran(rest));
            } else {
                assert(lines[k] == l);
            }
        }
        if any_nofortran(rest) {
            let k = choose|k: int| 0 <= k < rest.len() && has_key(#[trigger] rest[k]@, key_nofortran());
            assert(lines[k]@ == rest[k]@);
            assert(any_nofortran(lines));
        }
        if is_recognized_line(l) {
            let fr = recognized_only(rest).push(l);
            assert(recognized_only(lines) == fr);
            assert(fr.last() == l);
            assert(fr.drop_last() =~= recognized_only(rest));
            if any_nofortran(fr) {
                let k = choose|k: int| 0 <= k < fr.len() && has_key(#[trigger] fr[k]@, key_nofortran());
                if k < recognized_only(rest).len() {
                    assert(recognized_only(rest)[k]@ == fr[k]@);
                    assert(any_nofortran(recognized_only(rest)));
                } else {
                    assert(fr[k] == l);
                    assert(any_nofortran(lines));
                }
            }
            if any_nofortran(recognized_only(rest)) {
                let k = choose|k: int|
                    0 <= k < recognized_only(rest).len() && has_key(
                        #[trigger] recognized_only(rest)[k]@,
                        key_nofortran(),
                    );
                assert(fr[k]@ == recognized_only(rest)[k]@);
                assert(any_nofortran(fr));
            }
            if has_key(l@, key_nofortran()) {
                assert(fr[fr.len() - 1] == l);
                assert(any_nofortran(fr));
                assert(lines[lines.len() - 1] == l);
                assert(any_nofortran(lines));
            }
            assert forall|key: Seq<char>| is_recognized_key(key) implies #[trigger] last_value(
                recognized_only(lines),
                key,
            ) == last_value(lines, key) by {
                assert(last_value(fr, key) == (if has_key(l@, key) {
                    Some(value_of(l@))
                } else {
                    last_value(recognized_only(rest), key)
                }));
                assert(last_value(lines, key) == (if has_key(l@, key) {
                    Some(value_of(l@))
                } else {
                    last_value(rest, key)
                }));
            }
        } else {
            assert(recognized_only(lines) == recognized_only(rest));
            if has_key(l@, key_nofortran()) {
                assert(is_recognized_line(l));
                assert(false);
            }
            if any_nofortran(lines) {
                let k = choose|k: int| 0 <= k < lines.len() && has_key(#[trigger] lines[k]@, key_nofortran());
                assert(k < rest.len());
                assert(rest[k]@ == lines[k]@);
                assert(any_nofortran(rest));
            }
            assert forall|key: Seq<char>| is_recognized_key(key) implies #[trigger] last_value(
                recognized_only(lines),
                key,
            ) == last_value(lines, key) by {
                assert(!has_key(l@, key));
                assert(last_value(lines, key) == last_value(rest, key));
            }
        }
    } else {
        assert(recognized_only(lines) =~= lines);
    }
}

/// Two flag records matching the same optional value hold the same
/// library list.
proof fn lemma_flags_libs_agree(f1: LinkFlags, f2: LinkFlags, v: Option<Seq<char>>)
    requires
        flags_match(f1, v),
        flags_match(f2, v),
    ensures
        f1.libs@.len() == f2.libs@.len(),
        forall|i: int| 0 <= i < f1.libs@.len() ==> #[trigger] f1.libs@[i]@ == f2.libs@[i]@,
{
    if v is Some {
        lemma_sorted_unique(f1.libs@, f2.libs@);
    }
}

/// Parsing ignores what it does not recognize: a configuration with its
/// ignored lines removed — empty lines, lines that do not split on `=`
/// into exactly two parts, lines with unrecognized keys — parses to the
/// same record, in any two values meeting `from_lines`' contract, with
/// library lists compared pointwise. `search_paths` is excepted: it holds
/// the filesystem's answers, which two separate parses need not share.
pub proof fn lemma_ignored_lines_immaterial(lines: Seq<String>, m1: MakeConf, m2: MakeConf)
    requires
        m1.no_fortran == any_nofortran(lines),
        m1.os_name@ == (match last_value(lines, key_osname()) {
            Some(v) => v,
            None => Seq::<char>::empty(),
        }),
        flags_match(m1.c_extra_libs, last_value(lines, key_cextralib())),
        flags_match(m1.f_extra_libs, last_value(lines, key_fextralib())),
        m2.no_fortran == any_nofortran(recognized_only(lines)),
        m2.os_name@ == (match last_value(recognized_only(lines), key_osname()) {
            Some(v) => v,
            None => Seq::<char>::empty(),
        }),
        flags_match(m2.c_extra_libs, last_value(recognized_only(lines), key_cextralib())),
        flags_match(m2.f_extra_libs, last_value(recognized_only(lines), key_fextralib())),
    ensures
        m1.no_fortran == m2.no_fortran,
        m1.os_name@ == m2.os_name@,
        m1.c_extra_libs.libs@.len() == m2.c_extra_libs.libs@.len(),
        forall|i: int|
            0 <= i < m1.c_extra_libs.libs@.len() ==> #[trigger] m1.c_extra_libs.libs@[i]@
                == m2.c_extra_libs.libs@[i]@,
        m1.f_extra_libs.libs@.len() == m2.f_extra_libs.libs@.len(),
        forall|i: int|
            0 <= i < m1.f_extra_libs.libs@.len() ==> #[trigger] m1.f_extra_libs.libs@[i]@
                == m2.f_extra_libs.libs@[i]@,
{
    lemma_recognized_only_preserves(lines);
    assert(is_recognized_key(key_osname()));
    assert(is_recognized_key(key_cextralib()));
    assert(is_recognized_key(key_fextralib()));
    lemma_flags_libs_agree(m1.c_extra_libs, m2.c_extra_libs, last_value(lines, key_cextralib()));
    lemma_flags_libs_agree(m1.f_extra_libs, m2.f_extra_libs, last_value(lines, key_fextralib()));
}

} // verus!
