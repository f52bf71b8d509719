//! Parsing of compiler linker flags, `-L` and `-l`.
//!
//! A flag string is split on single spaces. A `-L` token names a search
//! path: it is kept only if it exists on disk, and is then canonicalized.
//! A `-l` token names a library; the two-character prefix is stripped once
//! and the remainder kept verbatim. Both lists come out sorted and
//! deduplicated, so two flag strings naming the same sets parse to the
//! same value.

use vstd::prelude::*;
use vstd::string::*;

use crate::error::Error;
use crate::order::{insert_sorted_dedup, lemma_sorted_unique, sorted_strict, view_set};
use crate::text::{is_prefix, is_prefix_exec, split_char, split_char_exec, suffix_from};

verus! {

/// The token prefix that introduces a search path.
pub open spec fn path_prefix() -> Seq<char> {
    seq!['-', 'L']
}

/// The token prefix that introduces a library name.
pub open spec fn lib_prefix() -> Seq<char> {
    seq!['-', 'l']
}

/// The library name a `-l` token carries: the remainder after the prefix,
/// verbatim.
pub open spec fn lib_name(t: Seq<char>) -> Seq<char> {
    t.skip(2)
}

/// The path a `-L` token names: the remainder after the prefix, verbatim.
pub open spec fn path_name(t: Seq<char>) -> Seq<char> {
    t.skip(2)
}

/// The library names that the `-l` tokens of a token list carry.
pub open spec fn lib_names(toks: Seq<Seq<char>>) -> Set<Seq<char>> {
    Set::new(
        |x: Seq<char>|
            exists|i: int|
                0 <= i < toks.len() && is_prefix(lib_prefix(), #[trigger] toks[i]) && x == lib_name(
                    toks[i],
                ),
    )
}

/// Some token of the list starts with `-L`.
pub open spec fn has_path_token(toks: Seq<Seq<char>>) -> bool {
    exists|i: int| 0 <= i < toks.len() && is_prefix(path_prefix(), #[trigger] toks[i])
}

/// The canonical forms that the filesystem's answers grant the `-L`
/// tokens: for token `i`, `on_disk[i]` says whether its path existed and
/// `canon[i]` what it canonicalized to.
pub open spec fn path_results(
    toks: Seq<Seq<char>>,
    on_disk: Seq<bool>,
    canon: Seq<Option<Seq<char>>>,
) -> Set<Seq<char>> {
    Set::new(
        |x: Seq<char>|
            exists|i: int|
                0 <= i < toks.len() && is_prefix(path_prefix(), #[trigger] toks[i]) && on_disk[i]
                    && canon[i] == Some(x),
    )
}

/// Some `-L` token's path existed but had no canonical form, per the
/// given answers.
pub open spec fn some_canon_failure(
    toks: Seq<Seq<char>>,
    on_disk: Seq<bool>,
    canon: Seq<Option<Seq<char>>>,
) -> bool {
    exists|i: int|
        0 <= i < toks.len() && is_prefix(path_prefix(), #[trigger] toks[i]) && on_disk[i]
            && canon[i] is None
}

/// `r` is the outcome the filesystem's answers dictate: when no existing
/// `-L` path failed to canonicalize, success, with `search_paths` holding
/// exactly the canonical forms the answers gave; otherwise the error,
/// carrying a failing token's path.
pub open spec fn parse_outcome(
    toks: Seq<Seq<char>>,
    on_disk: Seq<bool>,
    canon: Seq<Option<Seq<char>>>,
    r: Result<LinkFlags, Error>,
) -> bool {
    if some_canon_failure(toks, on_disk, canon) {
        r matches Err(e) && e is CannotCanonicalizePath && exists|i: int|
            0 <= i < toks.len() && is_prefix(path_prefix(), #[trigger] toks[i]) && on_disk[i]
                && canon[i] is None && e->CannotCanonicalizePath_path@ == path_name(toks[i])
    } else {
        r matches Ok(f) && sorted_strict(f.search_paths@) && view_set(f.search_paths@)
            == path_results(toks, on_disk, canon)
    }
}

/// Parsed linker flags.
#[derive(Debug, Clone)]
pub struct LinkFlags {
    /// Existing paths specified by `-L`, canonicalized, sorted,
    /// deduplicated.
    pub search_paths: Vec<String>,
    /// Libraries specified by `-l`, sorted, deduplicated.
    pub libs: Vec<String>,
}

impl Default for LinkFlags {
    /// The empty flag set.
    fn default() -> (r: Self)
        ensures
            r.search_paths@.len() == 0,
            r.libs@.len() == 0,
    {
        LinkFlags { search_paths: Vec::new(), libs: Vec::new() }
    }
}

/// Relies on `std::path::Path::exists`: whether the path currently names
/// an existing file or directory. The answer depends on the state of the
/// filesystem at the moment of the call, so nothing is promised of it.
#[verifier::external_body]
pub(crate) fn path_exists(p: &String) -> bool {
    std::path::Path::new(p.as_str()).exists()
}

/// Relies on `std::path::Path::canonicalize`: the canonical, absolute form
/// of a path, with symlinks and relative segments resolved, or `None` on
/// failure. The result depends on the filesystem, so nothing is promised
/// of it; a canonical form that is not valid UTF-8 counts as a failure.
#[verifier::external_body]
fn canonicalize_path(p: &String) -> Option<String> {
    match std::path::Path::new(p.as_str()).canonicalize() {
        Ok(c) => c.to_str().map(|t| t.to_string()),
        Err(_) => None,
    }
}

/// The decision on one `-L` path, taken on the filesystem's answers
/// alone and verified for every value of them: a path that is not on disk
/// contributes nothing; one that is joins the set in its canonical form;
/// one that is on disk but has no canonical form is the error, carrying
/// the path.
pub fn apply_path_answers(
    paths: &mut Vec<String>,
    path: String,
    on_disk: bool,
    canon: Option<String>,
) -> (r: Result<(), Error>)
    requires
        sorted_strict(old(paths)@),
    ensures
        sorted_strict(final(paths)@),
        !(on_disk && canon is Some) ==> final(paths)@ == old(paths)@,
        on_disk ==> (canon matches Some(c) ==> view_set(final(paths)@) == view_set(
            old(paths)@,
        ).insert(c@)),
        (r is Err) == (on_disk && canon is None),
        r matches Err(e) ==> e is CannotCanonicalizePath && e->CannotCanonicalizePath_path@
            == path@,
{
    if on_disk {
        match canon {
            Some(c) => {
                insert_sorted_dedup(paths, c);
                Ok(())
            },
            None => Err(Error::CannotCanonicalizePath { path }),
        }
    } else {
        Ok(())
    }
}

/// Extending the token list by one token, with its answers, extends the
/// granted path set by that token's contribution and the failures by its
/// failure.
proof fn lemma_answers_step(
    toks: Seq<Seq<char>>,
    on_disk: Seq<bool>,
    canon: Seq<Option<Seq<char>>>,
    i: int,
    e: bool,
    c: Option<Seq<char>>,
)
    requires
        0 <= i < toks.len(),
        on_disk.len() == i,
        canon.len() == i,
    ensures
        some_canon_failure(toks.take(i + 1), on_disk.push(e), canon.push(c)) == (
        some_canon_failure(toks.take(i), on_disk, canon) || (is_prefix(path_prefix(), toks[i]) && e
            && c is None)),
        forall|x: Seq<char>|
            path_results(toks.take(i + 1), on_disk.push(e), canon.push(c)).contains(x) == (
            #[trigger] path_results(toks.take(i), on_disk, canon).contains(x) || (is_prefix(
                path_prefix(),
                toks[i],
            ) && e && c == Some(x))),
{
    let t0 = toks.take(i);
    let t1 = toks.take(i + 1);
    let d1 = on_disk.push(e);
    let c1 = canon.push(c);
    assert(t1[i] == toks[i]);
    assert(d1[i] == e);
    assert(c1[i] == c);
    if some_canon_failure(t1, d1, c1) {
        let k = choose|k: int|
            0 <= k < t1.len() && is_prefix(path_prefix(), #[trigger] t1[k]) && d1[k] && c1[k]
                is None;
        if k < i {
            assert(t0[k] == toks[k]);
            assert(t1[k] == toks[k]);
            assert(some_canon_failure(t0, on_disk, canon));
        }
    }
    if some_canon_failure(t0, on_disk, canon) {
        let k = choose|k: int|
            0 <= k < t0.len() && is_prefix(path_prefix(), #[trigger] t0[k]) && on_disk[k]
                && canon[k] is None;
        assert(t1[k] == toks[k]);
        assert(t0[k] == toks[k]);
        assert(some_canon_failure(t1, d1, c1));
    }
    if is_prefix(path_prefix(), toks[i]) && e && c is None {
        assert(some_canon_failure(t1, d1, c1));
    }
    assert forall|x: Seq<char>|
        path_results(t1, d1, c1).contains(x) == (path_results(t0, on_disk, canon).contains(x) || (
        is_prefix(path_prefix(), toks[i]) && e && c == Some(x))) by {
        if path_results(t1, d1, c1).contains(x) {
            let k = choose|k: int|
                0 <= k < t1.len() && is_prefix(path_prefix(), #[trigger] t1[k]) && d1[k] && c1[k]
                    == Some(x);
            if k < i {
                assert(t0[k] == toks[k]);
                assert(t1[k] == toks[k]);
                assert(path_results(t0, on_disk, canon).contains(x));
            }
        }
        if path_results(t0, on_disk, canon).contains(x) {
            let k = choose|k: int|
                0 <= k < t0.len() && is_prefix(path_prefix(), #[trigger] t0[k]) && on_disk[k]
                    && canon[k] == Some(x);
            assert(t1[k] == toks[k]);
            assert(t0[k] == toks[k]);
            assert(path_results(t1, d1, c1).contains(x));
        }
        if is_prefix(path_prefix(), toks[i]) && e && c == Some(x) {
            assert(path_results(t1, d1, c1).contains(x));
        }
    }
}

impl LinkFlags {
    /// Parses a linker-flag string.
    ///
    /// `libs` holds exactly the `-l` names of the input, sorted and
    /// deduplicated. `search_paths` holds exactly what the filesystem's
    /// per-token answers grant — the canonical forms of the `-L` paths
    /// that existed — sorted and deduplicated, and is empty when no `-L`
    /// token is; a `-L` path that exists but cannot be canonicalized is
    /// the one error, and it carries that token's path.
    pub fn parse(line: &str) -> (r: Result<LinkFlags, Error>)
        ensures
            ({
                let toks = split_char(line@, ' ');
                &&& (r matches Ok(f) ==> sorted_strict(f.libs@) && view_set(f.libs@) == lib_names(
                    toks,
                ) && sorted_strict(f.search_paths@) && (!has_path_token(toks)
                    ==> f.search_paths@.len() == 0))
                &&& (!has_path_token(toks) ==> r is Ok)
                &&& (r matches Err(e) ==> e is CannotCanonicalizePath && exists|i: int|
                    0 <= i < toks.len() && is_prefix(path_prefix(), #[trigger] toks[i])
                        && e->CannotCanonicalizePath_path@ == path_name(toks[i]))
                &&& (exists|on_disk: Seq<bool>, canon: Seq<Option<Seq<char>>>|
                    on_disk.len() == toks.len() && canon.len() == toks.len() && #[trigger]
                    parse_outcome(toks, on_disk, canon, r))
            }),
    {
        let toks = split_char_exec(line, ' ');
        let ghost tv = split_char(line@, ' ');
        let ghost mut gdisk: Seq<bool> = Seq::empty();
        let ghost mut gcanon: Seq<Option<Seq<char>>> = Seq::empty();
        let mut search_paths: Vec<String> = Vec::new();
        let mut libs: Vec<String> = Vec::new();
        let mut i: usize = 0;
        proof {
            assert(view_set(libs@) =~= lib_names(tv.take(0)));
            assert(view_set(search_paths@) =~= path_results(tv.take(0), gdisk, gcanon));
        }
        while i < toks.len()
            invariant
                i <= toks.len(),
                tv == split_char(line@, ' '),
                toks@.len() == tv.len(),
                forall|k: int| 0 <= k < tv.len() ==> #[trigger] toks@[k]@ == tv[k],
                gdisk.len() == i,
                gcanon.len() == i,
                sorted_strict(libs@),
                sorted_strict(search_paths@),
                view_set(libs@) == lib_names(tv.take(i as int)),
                view_set(search_paths@) == path_results(tv.take(i as int), gdisk, gcanon),
                !some_canon_failure(tv.take(i as int), gdisk, gcanon),
                search_paths@.len() > 0 ==> has_path_token(tv),
            decreases toks.len() - i,
        {
            proof {
                reveal_strlit("-L");
                reveal_strlit("-l");
                assert("-L"@ =~= path_prefix());
                assert("-l"@ =~= lib_prefix());
            }
            let ghost prev_disk = gdisk;
            let ghost prev_canon = gcanon;
            let mut tok_disk = false;
            let ghost mut tok_canon: Option<Seq<char>> = None;
            let t = &toks[i];
            if is_prefix_exec("-L", t.as_str()) {
                let path = suffix_from(t.as_str(), 2);
                let ghost pv = path@;
                let on_disk = path_exists(&path);
                let canon = if on_disk {
                    canonicalize_path(&path)
                } else {
                    None
                };
                tok_disk = on_disk;
                proof {
                    tok_canon = (if canon is Some {
                        Some(canon->Some_0@)
                    } else {
                        None
                    });
                    assert(pv == path_name(tv[i as int]));
                }
                match apply_path_answers(&mut search_paths, path, on_disk, canon) {
                    Ok(_u) => {
                        proof {
                            assert(has_path_token(tv));
                        }
                    },
                    Err(e) => {
                        proof {
                            let df = gdisk.push(tok_disk) + Seq::new(
                                (tv.len() - i - 1) as nat,
                                |k: int| false,
                            );
                            let cf = gcanon.push(tok_canon) + Seq::new(
                                (tv.len() - i - 1) as nat,
                                |k: int| None::<Seq<char>>,
                            );
                            assert(df.len() == tv.len());
                            assert(cf.len() == tv.len());
                            assert(df[i as int] == tok_disk);
                            assert(cf[i as int] == tok_canon);
                            assert(is_prefix(path_prefix(), tv[i as int]));
                            assert(tok_disk && tok_canon is None);
                            assert(some_canon_failure(tv, df, cf));
                            assert(e->CannotCanonicalizePath_path@ == path_name(tv[i as int]));
                            assert(parse_outcome(tv, df, cf, Err(e)));
                        }
                        return Err(e);
                    },
                }
            }
            let ghost ls = view_set(libs@);
            let mut is_lib = false;
            if is_prefix_exec("-l", t.as_str()) {
                is_lib = true;
                let name = suffix_from(t.as_str(), 2);
                insert_sorted_dedup(&mut libs, name);
                proof {
                    assert(view_set(libs@) == ls.insert(lib_name(tv[i as int])));
                }
            }
            proof {
                let i1 = i as int;
                let t0 = tv.take(i1);
                let t1 = tv.take(i1 + 1);
                assert forall|x: Seq<char>| lib_names(t1).contains(x) implies view_set(
                    libs@,
                ).contains(x) by {
                    let k = choose|k: int|
                        0 <= k < t1.len() && is_prefix(lib_prefix(), #[trigger] t1[k]) && x
                            == lib_name(t1[k]);
                    if k < i1 {
                        assert(t0[k] == tv[k]);
                        assert(t1[k] == tv[k]);
                        assert(lib_names(t0).contains(x));
                    } else {
                        assert(t1[k] == tv[i1]);
                        assert(is_lib);
                    }
                }
                assert forall|x: Seq<char>| view_set(libs@).contains(x) implies lib_names(
                    t1,
                ).contains(x) by {
                    if is_lib && x == lib_name(tv[i1]) {
                        assert(t1[i1] == tv[i1]);
                    } else {
                        assert(lib_names(t0).contains(x));
                        let k = choose|k: int|
                            0 <= k < t0.len() && is_prefix(lib_prefix(), #[trigger] t0[k]) && x
                                == lib_name(t0[k]);
                        assert(t0[k] == tv[k]);
                        assert(t1[k] == tv[k]);
                    }
                }
                assert(view_set(libs@) =~= lib_names(t1));
                lemma_answers_step(tv, prev_disk, prev_canon, i1, tok_disk, tok_canon);
                gdisk = prev_disk.push(tok_disk);
                gcanon = prev_canon.push(tok_canon);
                assert forall|x: Seq<char>| view_set(search_paths@).contains(x)
                    == path_results(t1, gdisk, gcanon).contains(x) by {
                    assert(path_results(t1, gdisk, gcanon).contains(x) == (path_results(
                        t0,
                        prev_disk,
                        prev_canon,
                    ).contains(x) || (is_prefix(path_prefix(), tv[i1]) && tok_disk && tok_canon
                        == Some(x))));
                }
                assert(view_set(search_paths@) =~= path_results(t1, gdisk, gcanon));
                assert(!some_canon_failure(t1, gdisk, gcanon));
            }
            i = i + 1;
        }
        proof {
            assert(tv.take(tv.len() as int) =~= tv);
        }
        let f = LinkFlags { search_paths, libs };
        proof {
            assert(parse_outcome(tv, gdisk, gcanon, Ok(f)));
        }
        Ok(f)
    }
}

/// Parsing is insensitive to token order and repetition: two flag strings
/// whose token lists name the same library sets have pointwise-equal,
/// sorted `libs` in any values meeting `parse`'s contract.
pub proof fn lemma_libs_order_insensitive(
    f1: LinkFlags,
    f2: LinkFlags,
    s1: Seq<char>,
    s2: Seq<char>,
)
    requires
        sorted_strict(f1.libs@),
        sorted_strict(f2.libs@),
        view_set(f1.libs@) == lib_names(split_char(s1, ' ')),
        view_set(f2.libs@) == lib_names(split_char(s2, ' ')),
        lib_names(split_char(s1, ' ')) == lib_names(split_char(s2, ' ')),
    ensures
        f1.libs@.len() == f2.libs@.len(),
        forall|i: int| 0 <= i < f1.libs@.len() ==> #[trigger] f1.libs@[i]@ == f2.libs@[i]@,
{
    lemma_sorted_unique(f1.libs@, f2.libs@);
}

} // verus!
