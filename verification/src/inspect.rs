//! Library inspection over the textual output of binutils (`nm -g` and
//! `objdump -p`).
//!
//! The inspection commands run elsewhere; this module parses their output
//! lines into sorted, deduplicated symbol and dependency lists and answers
//! capability questions over them. A line of unexpected shape is skipped,
//! never an error: tool output is a best-effort, loosely structured
//! contract.

use vstd::prelude::*;
use vstd::string::*;

use crate::error::Error;
use crate::flags::path_exists;
use crate::order::{insert_sorted_dedup, sorted_strict, view_set};
use crate::text::{first_occ, first_occ_exec, is_prefix, is_prefix_exec, split_char,
    split_char_exec, str_eq, suffix_from, trim, trim_exec};

verus! {

/// The symbol name of an `nm` output line: present when the trimmed line
/// splits on single spaces into exactly three fields whose second is `T`.
pub open spec fn nm_symbol(line: Seq<char>) -> Option<Seq<char>> {
    let parts = split_char(trim(line), ' ');
    if parts.len() == 3 && parts[1] == seq!['T'] {
        Some(parts[2])
    } else {
        None
    }
}

pub open spec fn needed_marker() -> Seq<char> {
    seq!['N', 'E', 'E', 'D', 'E', 'D']
}

/// The dependency name of an `objdump -p` output line: present when the
/// trimmed line starts with `NEEDED`; the marker is stripped once and the
/// surrounding white space removed.
pub open spec fn needed_dep(line: Seq<char>) -> Option<Seq<char>> {
    let t = trim(line);
    if is_prefix(needed_marker(), t) {
        Some(trim(t.skip(6)))
    } else {
        None
    }
}

/// The `T`-typed symbol names of a list of `nm` output lines.
pub open spec fn nm_symbols(lines: Seq<String>) -> Set<Seq<char>> {
    Set::new(
        |x: Seq<char>|
            exists|i: int| 0 <= i < lines.len() && nm_symbol(#[trigger] lines[i]@) == Some(x),
    )
}

/// The `NEEDED` dependency names of a list of `objdump -p` output lines.
pub open spec fn needed_deps(lines: Seq<String>) -> Set<Seq<char>> {
    Set::new(
        |x: Seq<char>|
            exists|i: int| 0 <= i < lines.len() && needed_dep(#[trigger] lines[i]@) == Some(x),
    )
}

proof fn lemma_nm_symbols_step(lines: Seq<String>, i: int)
    requires
        0 <= i < lines.len(),
    ensures
        nm_symbols(lines.take(i + 1)) == (match nm_symbol(lines[i]@) {
            Some(x) => nm_symbols(lines.take(i)).insert(x),
            None => nm_symbols(lines.take(i)),
        }),
{
    let t0 = lines.take(i);
    let t1 = lines.take(i + 1);
    let target = (match nm_symbol(lines[i]@) {
        Some(x) => nm_symbols(t0).insert(x),
        None => nm_symbols(t0),
    });
    assert forall|y: Seq<char>| nm_symbols(t1).contains(y) implies target.contains(y) by {
        let k = choose|k: int| 0 <= k < t1.len() && nm_symbol(#[trigger] t1[k]@) == Some(y);
        if k < i {
            assert(t0[k]@ == lines[k]@);
            assert(t1[k]@ == lines[k]@);
            assert(nm_symbols(t0).contains(y));
        } else {
            assert(t1[k]@ == lines[i]@);
        }
    }
    assert forall|y: Seq<char>| target.contains(y) implies nm_symbols(t1).contains(y) by {
        if nm_symbol(lines[i]@) == Some(y) {
            assert(t1[i]@ == lines[i]@);
        } else {
            assert(nm_symbols(t0).contains(y));
            let k = choose|k: int| 0 <= k < t0.len() && nm_symbol(#[trigger] t0[k]@) == Some(y);
            assert(t0[k]@ == lines[k]@);
            assert(t1[k]@ == lines[k]@);
        }
    }
    assert(nm_symbols(t1) =~= target);
}

proof fn lemma_needed_deps_step(lines: Seq<String>, i: int)
    requires
        0 <= i < lines.len(),
    ensures
        needed_deps(lines.take(i + 1)) == (match needed_dep(lines[i]@) {
            Some(x) => needed_deps(lines.take(i)).insert(x),
            None => needed_deps(lines.take(i)),
        }),
{
    let t0 = lines.take(i);
    let t1 = lines.take(i + 1);
    let target = (match needed_dep(lines[i]@) {
        Some(x) => needed_deps(t0).insert(x),
        None => needed_deps(t0),
    });
    assert forall|y: Seq<char>| needed_deps(t1).contains(y) implies target.contains(y) by {
        let k = choose|k: int| 0 <= k < t1.len() && needed_dep(#[trigger] t1[k]@) == Some(y);
        if k < i {
            assert(t0[k]@ == lines[k]@);
            assert(t1[k]@ == lines[k]@);
            assert(needed_deps(t0).contains(y));
        } else {
            assert(t1[k]@ == lines[i]@);
        }
    }
    assert forall|y: Seq<char>| target.contains(y) implies needed_deps(t1).contains(y) by {
        if needed_dep(lines[i]@) == Some(y) {
            assert(t1[i]@ == lines[i]@);
        } else {
            assert(needed_deps(t0).contains(y));
            let k = choose|k: int| 0 <= k < t0.len() && needed_dep(#[trigger] t0[k]@) == Some(y);
            assert(t0[k]@ == lines[k]@);
            assert(t1[k]@ == lines[k]@);
        }
    }
    assert(needed_deps(t1) =~= target);
}

pub open spec fn cblas_prefix() -> Seq<char> {
    seq!['c', 'b', 'l', 'a', 's', '_']
}

pub open spec fn lapack_symbol() -> Seq<char> {
    seq!['d', 's', 'y', 'e', 'v', '_']
}

pub open spec fn lapacke_prefix() -> Seq<char> {
    seq!['L', 'A', 'P', 'A', 'C', 'K', 'E', '_']
}

pub open spec fn lib_stem_prefix() -> Seq<char> {
    seq!['l', 'i', 'b']
}

/// The stem of a filename: the part before its first `.`, or all of it.
pub open spec fn stem(s: Seq<char>) -> Seq<char> {
    s.take(first_occ(s, '.'))
}

/// Facts about one compiled binary, drawn from its symbol table and its
/// dynamic-dependency metadata.
#[derive(Debug, Clone)]
pub struct LibInspect {
    /// The inspected binary's location: identity, not content.
    pub path: String,
    /// Shared libraries the binary requires, sorted, deduplicated.
    pub libs: Vec<String>,
    /// Exported code-section (`T`) symbols, sorted, deduplicated.
    pub symbols: Vec<String>,
}

impl LibInspect {
    /// What the filesystem's existence answer decides for the binary to
    /// inspect, verified for both values of it: success exactly when the
    /// path is on disk, else the not-found error carrying the path.
    pub fn exists_to_result(path: &String, on_disk: bool) -> (r: Result<(), Error>)
        ensures
            r is Ok <==> on_disk,
            r matches Err(e) ==> e is LibraryNotExist && e->LibraryNotExist_path@ == path@,
    {
        if on_disk {
            Ok(())
        } else {
            Err(Error::LibraryNotExist { path: path.clone() })
        }
    }

    /// The fail-fast check that inspection makes before any tool runs:
    /// success exactly when the filesystem reports the path present at
    /// the moment of the call, else the not-found error, carrying the
    /// path.
    pub fn require_exists(path: &String) -> (r: Result<(), Error>)
        ensures
            r matches Err(e) ==> e is LibraryNotExist && e->LibraryNotExist_path@ == path@,
    {
        Self::exists_to_result(path, path_exists(path))
    }

    /// Assembles a report from the captured output lines of the two
    /// inspection tools: the `T`-typed symbols of the `nm -g` lines and
    /// the `NEEDED` entries of the `objdump -p` lines, each sorted and
    /// deduplicated. Lines of any other shape are skipped.
    pub fn from_output(path: String, nm_lines: &Vec<String>, objdump_lines: &Vec<String>) -> (r:
        LibInspect)
        ensures
            r.path@ == path@,
            sorted_strict(r.symbols@),
            view_set(r.symbols@) == nm_symbols(nm_lines@),
            sorted_strict(r.libs@),
            view_set(r.libs@) == needed_deps(objdump_lines@),
    {
        let mut symbols: Vec<String> = Vec::new();
        let mut i: usize = 0;
        proof {
            assert(view_set(symbols@) =~= nm_symbols(nm_lines@.take(0)));
        }
        while i < nm_lines.len()
            invariant
                i <= nm_lines@.len(),
                sorted_strict(symbols@),
                view_set(symbols@) == nm_symbols(nm_lines@.take(i as int)),
            decreases nm_lines@.len() - i,
        {
            let ghost lv = nm_lines@[i as int]@;
            proof {
                reveal_strlit("T");
                assert("T"@ =~= seq!['T']);
            }
            let t = trim_exec(nm_lines[i].as_str());
            let parts = split_char_exec(t.as_str(), ' ');
            let mut took = false;
            if parts.len() == 3 {
                if str_eq(parts[1].as_str(), "T") {
                    proof {
                        assert(parts@[1]@ == split_char(trim(lv), ' ')[1]);
                        assert(parts@[2]@ == split_char(trim(lv), ' ')[2]);
                        assert(nm_symbol(lv) == Some(parts@[2]@));
                    }
                    took = true;
                    insert_sorted_dedup(&mut symbols, parts[2].clone());
                }
            }
            proof {
                if !took {
                    if parts@.len() == 3 {
                        assert(parts@[1]@ == split_char(trim(lv), ' ')[1]);
                    }
                    assert(nm_symbol(lv) is None);
                }
                lemma_nm_symbols_step(nm_lines@, i as int);
            }
            i = i + 1;
        }
        proof {
            assert(nm_lines@.take(nm_lines@.len() as int) =~= nm_lines@);
        }
        let mut libs: Vec<String> = Vec::new();
        let mut j: usize = 0;
        proof {
            assert(view_set(libs@) =~= needed_deps(objdump_lines@.take(0)));
        }
        while j < objdump_lines.len()
            invariant
                j <= objdump_lines@.len(),
                sorted_strict(libs@),
                view_set(libs@) == needed_deps(objdump_lines@.take(j as int)),
            decreases objdump_lines@.len() - j,
        {
            let ghost lv = objdump_lines@[j as int]@;
            let t = trim_exec(objdump_lines[j].as_str());
            let mut took = false;
            proof {
                reveal_strlit("NEEDED");
                assert("NEEDED"@ =~= needed_marker());
            }
            if is_prefix_exec("NEEDED", t.as_str()) {
                let stripped = suffix_from(t.as_str(), 6);
                let dep = trim_exec(stripped.as_str());
                proof {
                    assert(needed_dep(lv) == Some(dep@));
                }
                took = true;
                insert_sorted_dedup(&mut libs, dep);
            }
            proof {
                if !took {
                    assert(needed_dep(lv) is None);
                }
                lemma_needed_deps_step(objdump_lines@, j as int);
            }
            j = j + 1;
        }
        proof {
            assert(objdump_lines@.take(objdump_lines@.len() as int) =~= objdump_lines@);
        }
        LibInspect { path, libs, symbols }
    }

    /// True when some exported symbol starts with `cblas_`: the CBLAS
    /// interface is present.
    pub fn has_cblas(&self) -> (r: bool)
        ensures
            r == (exists|i: int|
                0 <= i < self.symbols@.len() && is_prefix(
                    cblas_prefix(),
                    #[trigger] self.symbols@[i]@,
                )),
    {
        let mut i: usize = 0;
        while i < self.symbols.len()
            invariant
                i <= self.symbols@.len(),
                forall|k: int|
                    0 <= k < i ==> !is_prefix(cblas_prefix(), #[trigger] self.symbols@[k]@),
            decreases self.symbols@.len() - i,
        {
            proof {
                reveal_strlit("cblas_");
                assert("cblas_"@ =~= cblas_prefix());
            }
            if is_prefix_exec("cblas_", self.symbols[i].as_str()) {
                return true;
            }
            i = i + 1;
        }
        false
    }

    /// True when the exact symbol `dsyev_` is exported: the LAPACK
    /// interface is present.
    pub fn has_lapack(&self) -> (r: bool)
        ensures
            r == (exists|i: int|
                0 <= i < self.symbols@.len() && #[trigger] self.symbols@[i]@ == lapack_symbol()),
    {
        let mut i: usize = 0;
        while i < self.symbols.len()
            invariant
                i <= self.symbols@.len(),
                forall|k: int| 0 <= k < i ==> #[trigger] self.symbols@[k]@ != lapack_symbol(),
            decreases self.symbols@.len() - i,
        {
            proof {
                reveal_strlit("dsyev_");
                assert("dsyev_"@ =~= lapack_symbol());
            }
            if str_eq(self.symbols[i].as_str(), "dsyev_") {
                return true;
            }
            i = i + 1;
        }
        false
    }

    /// True when some exported symbol starts with `LAPACKE_`: the LAPACKE
    /// interface is present.
    pub fn has_lapacke(&self) -> (r: bool)
        ensures
            r == (exists|i: int|
                0 <= i < self.symbols@.len() && is_prefix(
                    lapacke_prefix(),
                    #[trigger] self.symbols@[i]@,
                )),
    {
        let mut i: usize = 0;
        while i < self.symbols.len()
            invariant
                i <= self.symbols@.len(),
                forall|k: int|
                    0 <= k < i ==> !is_prefix(lapacke_prefix(), #[trigger] self.symbols@[k]@),
            decreases self.symbols@.len() - i,
        {
            proof {
                reveal_strlit("LAPACKE_");
                assert("LAPACKE_"@ =~= lapacke_prefix());
            }
            if is_prefix_exec("LAPACKE_", self.symbols[i].as_str()) {
                return true;
            }
            i = i + 1;
        }
        false
    }

    /// True when some dependency's filename stem — the part before its
    /// first `.` — is exactly `lib` followed by `name`.
    pub fn has_lib(&self, name: &str) -> (r: bool)
        ensures
            r == (exists|i: int|
                0 <= i < self.libs@.len() && stem(#[trigger] self.libs@[i]@) == lib_stem_prefix()
                    + name@),
    {
        let mut i: usize = 0;
        while i < self.libs.len()
            invariant
                i <= self.libs@.len(),
                forall|k: int|
                    0 <= k < i ==> stem(#[trigger] self.libs@[k]@) != lib_stem_prefix() + name@,
            decreases self.libs@.len() - i,
        {
            proof {
                reveal_strlit("lib");
                assert("lib"@ =~= lib_stem_prefix());
            }
            let ghost lv = self.libs@[i as int]@;
            let dot = first_occ_exec(self.libs[i].as_str(), '.');
            let st = self.libs[i].as_str().substring_char(0, dot);
            proof {
                assert(st@ =~= stem(lv));
            }
            if is_prefix_exec("lib", st) {
                let stlen = st.unicode_len();
                let rest = st.substring_char(3, stlen);
                if str_eq(rest, name) {
                    proof {
                        assert(stem(lv) =~= lib_stem_prefix() + name@);
                    }
                    return true;
                }
                proof {
                    if stem(lv) == lib_stem_prefix() + name@ {
                        assert(stem(lv).skip(3) =~= name@);
                        assert(rest@ =~= stem(lv).skip(3));
                        assert(false);
                    }
                }
            } else {
                proof {
                    if stem(lv) == lib_stem_prefix() + name@ {
                        assert(stem(lv).take(3) =~= lib_stem_prefix());
                        assert(false);
                    }
                }
            }
            i = i + 1;
        }
        false
    }
}

} // verus!
