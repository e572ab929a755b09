//! Where things are looked for: application and icon directories, icon
//! files, and the pieces of file names the launcher reads.
use vstd::prelude::*;
use base64::Engine;
use crate::desktop::{opt_chars, opt_view};
use crate::update::string_from_utf8;
use crate::text::{
    has_suffix, ends_with, eq_chars, concat_chars, is_lit, chars_of, concat_str, contains, contains_chars, find, has_prefix, lines, lines_chars, replace_all,
    replace_chars, split_char, split_char_chars, split_once, split_once_chars, starts_with,
    string_of, trim, trim_char, trim_char_chars, trim_chars,
};

verus! {

/// Calls `std::path::Path::exists`, which asks the file system; nothing is
/// stated of its answer, which depends on the disk at the time of the call.
#[verifier::external_body]
pub(crate) fn path_exists(p: &str) -> (b: bool) {
    std::path::Path::new(p).exists()
}

/// `PathBuf::join` of a relative path: a separator is added unless the
/// base is empty or already ends with one.
pub open spec fn path_join(base: Seq<char>, rel: Seq<char>) -> Seq<char> {
    if base.len() == 0 || base.last() == '/' {
        base + rel
    } else {
        base + "/"@ + rel
    }
}

/// Joins a relative path onto a base.
pub fn join_path(base: &str, rel: &str) -> (r: String)
    ensures
        r@ == path_join(base@, rel@),
{
    let b = chars_of(base);
    proof {
        reveal_strlit("/");
    }
    if b.len() == 0 || b[b.len() - 1] == '/' {
        concat_str(base, rel)
    } else {
        let with_sep = concat_str(base, "/");
        concat_str(with_sep.as_str(), rel)
    }
}

/// The pieces of a path that name something: not empty (repeated or
/// trailing separators) and not `.`.
pub open spec fn named_pieces(pieces: Seq<Seq<char>>) -> Seq<Seq<char>>
    decreases pieces.len(),
{
    if pieces.len() == 0 {
        seq![]
    } else if pieces.last().len() > 0 && pieces.last() != "."@ {
        named_pieces(pieces.drop_last()).push(pieces.last())
    } else {
        named_pieces(pieces.drop_last())
    }
}

/// What `Path::components` sees of a Unix path: whether it starts at the
/// root, whether it starts with a `.` component (kept only in front), and
/// its named components.  Two paths are equal as paths when these agree.
pub open spec fn path_key(p: Seq<char>) -> (bool, bool, Seq<Seq<char>>) {
    let pieces = split_char(p, '/');
    (
        has_prefix(p, "/"@),
        !has_prefix(p, "/"@) && pieces.len() > 0 && pieces[0] == "."@,
        named_pieces(pieces),
    )
}

/// `a` and `b` name the same path (`Path`'s equality: same components).
pub open spec fn same_path(a: Seq<char>, b: Seq<char>) -> bool {
    path_key(a) == path_key(b)
}

/// `p` was kept before: as the same text, or, when comparing as paths,
/// as the same path.
pub open spec fn already_kept(acc: Seq<Seq<char>>, p: Seq<char>, by_path: bool) -> bool {
    if by_path {
        exists|j: int| 0 <= j < acc.len() && same_path(#[trigger] acc[j], p)
    } else {
        acc.contains(p)
    }
}

/// The candidates kept, in order, of the first `n`: a candidate is kept
/// when the file system said it exists (`flags`) and, if it is marked for
/// de-duplication, it was not kept before (compared as paths when
/// `by_path`, else as text).
pub open spec fn collect_upto(cands: Seq<(Seq<char>, bool)>, flags: Seq<bool>, by_path: bool, n: int) -> Seq<Seq<char>>
    decreases n,
{
    if n <= 0 {
        seq![]
    } else {
        let acc = collect_upto(cands, flags, by_path, n - 1);
        let c = cands[n - 1];
        if flags[n - 1] && !(c.1 && already_kept(acc, c.0, by_path)) {
            acc.push(c.0)
        } else {
            acc
        }
    }
}

/// The candidates kept of all of them.
pub open spec fn collect_existing(cands: Seq<(Seq<char>, bool)>, flags: Seq<bool>, by_path: bool) -> Seq<Seq<char>> {
    collect_upto(cands, flags, by_path, cands.len() as int)
}

/// The named components of a path.
fn named_pieces_exec(p: &str) -> (r: Vec<Vec<char>>)
    ensures
        r.deep_view() == named_pieces(split_char(p@, '/')),
{
    let c = chars_of(p);
    let pieces = crate::text::split_char_chars(&c, '/');
    let ghost ps = pieces.deep_view();
    let mut out: Vec<Vec<char>> = Vec::new();
    let mut i: usize = 0;
    while i < pieces.len()
        invariant
            i <= pieces.len(),
            ps == pieces.deep_view(),
            ps == split_char(p@, '/'),
            out.deep_view() == named_pieces(ps.take(i as int)),
        decreases pieces.len() - i,
    {
        assert(ps.take(i + 1).drop_last() =~= ps.take(i as int));
        assert(ps[i as int] =~= pieces[i as int]@);
        if pieces[i].len() > 0 && !is_lit(&pieces[i], ".") {
            let ghost before = out.deep_view();
            out.push(pieces[i].clone());
            assert(out.deep_view() =~= before.push(ps[i as int]));
        }
        i = i + 1;
    }
    assert(ps.take(ps.len() as int) =~= ps);
    out
}

/// Whether two strings name the same path.
pub fn paths_equal(a: &str, b: &str) -> (r: bool)
    ensures
        r == same_path(a@, b@),
{
    let ca = chars_of(a);
    let cb = chars_of(b);
    let slash = chars_of("/");
    let ra = starts_with(&ca, &slash);
    let rb = starts_with(&cb, &slash);
    if ra != rb {
        return false;
    }
    let pa = crate::text::split_char_chars(&ca, '/');
    let pb = crate::text::split_char_chars(&cb, '/');
    assert(pa.deep_view().len() == pa@.len());
    assert(pb.deep_view().len() == pb@.len());
    let da = !ra && pa.len() > 0 && is_lit(&pa[0], ".");
    let db = !rb && pb.len() > 0 && is_lit(&pb[0], ".");
    proof {
        if pa.len() > 0 {
            assert(pa.deep_view()[0] =~= pa@[0]@);
        }
        if pb.len() > 0 {
            assert(pb.deep_view()[0] =~= pb@[0]@);
        }
    }
    if da != db {
        return false;
    }
    let na = named_pieces_exec(a);
    let nb = named_pieces_exec(b);
    assert(na.deep_view().len() == na@.len());
    assert(nb.deep_view().len() == nb@.len());
    if na.len() != nb.len() {
        return false;
    }
    let mut i: usize = 0;
    while i < na.len()
        invariant
            i <= na.len(),
            na.len() == nb.len(),
            na.deep_view() == named_pieces(split_char(a@, '/')),
            nb.deep_view() == named_pieces(split_char(b@, '/')),
            forall|k: int| 0 <= k < i ==> #[trigger] na.deep_view()[k] == nb.deep_view()[k],
        decreases na.len() - i,
    {
        assert(na.deep_view()[i as int] =~= na@[i as int]@);
        assert(nb.deep_view()[i as int] =~= nb@[i as int]@);
        if !eq_chars(&na[i], &nb[i]) {
            return false;
        }
        i = i + 1;
    }
    assert(na.deep_view() =~= nb.deep_view());
    true
}

/// Whether a list holds a string naming the same path as `s`.
pub fn holds_path(v: &Vec<String>, s: &str) -> (b: bool)
    ensures
        b == already_kept(v.deep_view(), s@, true),
{
    let mut k: usize = 0;
    while k < v.len()
        invariant
            k <= v.len(),
            forall|j: int| 0 <= j < k ==> !same_path(#[trigger] v.deep_view()[j], s@),
        decreases v.len() - k,
    {
        assert(v.deep_view()[k as int] == v[k as int]@);
        if paths_equal(v[k].as_str(), s) {
            return true;
        }
        k = k + 1;
    }
    false
}

/// Whether a list of strings holds the given one.
pub fn holds(v: &Vec<String>, s: &str) -> (b: bool)
    ensures
        b == v.deep_view().contains(s@),
{
    let t = chars_of(s);
    let mut k: usize = 0;
    while k < v.len()
        invariant
            k <= v.len(),
            t@ == s@,
            forall|j: int| 0 <= j < k ==> #[trigger] v.deep_view()[j] != s@,
        decreases v.len() - k,
    {
        let c = chars_of(v[k].as_str());
        assert(v.deep_view()[k as int] == c@);
        if crate::text::eq_chars(&c, &t) {
            return true;
        }
        k = k + 1;
    }
    false
}

/// Keeps the candidates whose answer in `exists` is yes, in order,
/// leaving out a candidate marked for de-duplication that was kept before
/// (compared as paths when `by_path`, else as text).
pub fn collect_flagged(cands: &Vec<(String, bool)>, exists: &Vec<bool>, by_path: bool) -> (r: Vec<String>)
    requires
        exists@.len() == cands@.len(),
    ensures
        r.deep_view() == collect_existing(cands.deep_view(), exists@, by_path),
{
    let mut out: Vec<String> = Vec::new();
    let mut i: usize = 0;
    while i < cands.len()
        invariant
            i <= cands.len(),
            exists@.len() == cands@.len(),
            out.deep_view() == collect_upto(cands.deep_view(), exists@, by_path, i as int),
        decreases cands.len() - i,
    {
        let (p, dedup) = (&cands[i].0, cands[i].1);
        assert(cands.deep_view()[i as int] == (p@, dedup));
        let ghost acc = out.deep_view();
        let seen = if by_path {
            holds_path(&out, p.as_str())
        } else {
            holds(&out, p.as_str())
        };
        if exists[i] && !(dedup && seen) {
            out.push(p.clone());
            assert(out.deep_view() =~= acc.push(p@));
        }
        i = i + 1;
    }
    assert(cands.deep_view().len() == cands.len());
    out
}

/// Asks the file system, in order, whether each path exists.
pub fn existence_of(paths: &Vec<String>) -> (r: Vec<bool>)
    ensures
        r@.len() == paths@.len(),
{
    let mut r: Vec<bool> = Vec::new();
    let mut i: usize = 0;
    while i < paths.len()
        invariant
            i <= paths.len(),
            r@.len() == i,
        decreases paths.len() - i,
    {
        r.push(path_exists(paths[i].as_str()));
        i = i + 1;
    }
    r
}

/// The paths of the candidates.
fn candidate_paths(cands: &Vec<(String, bool)>) -> (r: Vec<String>)
    ensures
        r@.len() == cands@.len(),
{
    let mut r: Vec<String> = Vec::new();
    let mut i: usize = 0;
    while i < cands.len()
        invariant
            i <= cands.len(),
            r@.len() == i,
        decreases cands.len() - i,
    {
        r.push(cands[i].0.clone());
        i = i + 1;
    }
    r
}

/// Asks the file system about each candidate and keeps the existing ones
/// as `collect_flagged` does with the answers.
pub fn keep_existing(cands: &Vec<(String, bool)>, by_path: bool) -> (r: Vec<String>)
    ensures
        exists|flags: Seq<bool>|
            flags.len() == cands.len() && r.deep_view() == #[trigger] collect_existing(
                cands.deep_view(),
                flags,
                by_path,
            ),
{
    let paths = candidate_paths(cands);
    let answers = existence_of(&paths);
    collect_flagged(cands, &answers, by_path)
}

/// Among the first `n` candidates, all marked for de-duplication and
/// compared as paths, no two kept name the same path, and each one kept is
/// a candidate the file system confirmed.
proof fn lemma_collect_distinct(cands: Seq<(Seq<char>, bool)>, flags: Seq<bool>, n: int)
    requires
        0 <= n <= cands.len(),
        n <= flags.len(),
        forall|i: int| 0 <= i < cands.len() ==> (#[trigger] cands[i]).1,
    ensures
        forall|i: int, j: int| 0 <= i < j < collect_upto(cands, flags, true, n).len() ==> !same_path(
            #[trigger] collect_upto(cands, flags, true, n)[i],
            #[trigger] collect_upto(cands, flags, true, n)[j],
        ),
        forall|x: Seq<char>| #[trigger] collect_upto(cands, flags, true, n).contains(x) ==> exists|i: int|
            0 <= i < n && flags[i] && (#[trigger] cands[i]).0 == x,
    decreases n,
{
    if n > 0 {
        lemma_collect_distinct(cands, flags, n - 1);
        let acc = collect_upto(cands, flags, true, n - 1);
        let c = cands[n - 1];
        let r = collect_upto(cands, flags, true, n);
        if flags[n - 1] && !(c.1 && already_kept(acc, c.0, true)) {
            assert(r == acc.push(c.0));
            assert forall|i: int, j: int| 0 <= i < j < r.len() implies !same_path(
                #[trigger] r[i],
                #[trigger] r[j],
            ) by {
                assert(r[i] == acc[i]);
                if j < acc.len() {
                    assert(r[j] == acc[j]);
                } else {
                    assert(r[j] == c.0);
                    if same_path(acc[i], c.0) {
                        assert(already_kept(acc, c.0, true));
                    }
                }
            }
        }
        assert forall|x: Seq<char>| #[trigger] r.contains(x) implies exists|i: int|
            0 <= i < n && flags[i] && (#[trigger] cands[i]).0 == x by {
            if flags[n - 1] && !(c.1 && already_kept(acc, c.0, true)) {
                let j = choose|j: int| 0 <= j < r.len() && r[j] == x;
                if j < acc.len() {
                    assert(acc[j] == x);
                    assert(acc.contains(x));
                } else {
                    assert(cands[n - 1].0 == x);
                }
            } else {
                assert(acc.contains(x));
            }
        }
    }
}

/// The application directories are listed once each as paths (no two name
/// the same directory), and each is one of the candidate directories that
/// the file system said exists.
pub proof fn law_application_dirs_distinct(xdg: Option<Seq<char>>, home: Option<Seq<char>>, flags: Seq<bool>)
    requires
        flags.len() == app_dir_candidates(xdg, home).len(),
    ensures
        forall|i: int, j: int| 0 <= i < j < collect_existing(app_dir_candidates(xdg, home), flags, true).len()
            ==> !same_path(
            #[trigger] collect_existing(app_dir_candidates(xdg, home), flags, true)[i],
            #[trigger] collect_existing(app_dir_candidates(xdg, home), flags, true)[j],
        ),
        forall|x: Seq<char>| #[trigger] collect_existing(app_dir_candidates(xdg, home), flags, true).contains(x)
            ==> exists|i: int| 0 <= i < flags.len() && flags[i] && (#[trigger] app_dir_candidates(xdg, home)[i]).0 == x,
{
    let c = app_dir_candidates(xdg, home);
    lemma_joined_all_marked(xdg_bases(xdg), "applications"@, true);
    assert forall|i: int| 0 <= i < c.len() implies (#[trigger] c[i]).1 by {
        let j = joined_all(xdg_bases(xdg), "applications"@, true);
        if i < j.len() {
            assert(c[i] == j[i]);
        }
    }
    lemma_collect_distinct(c, flags, c.len() as int);
}

/// The pieces that are absolute paths.
pub open spec fn absolute_pieces(pieces: Seq<Seq<char>>) -> Seq<Seq<char>>
    decreases pieces.len(),
{
    if pieces.len() == 0 {
        seq![]
    } else if has_prefix(pieces.last(), "/"@) {
        absolute_pieces(pieces.drop_last()).push(pieces.last())
    } else {
        absolute_pieces(pieces.drop_last())
    }
}

/// The data directories named by `$XDG_DATA_DIRS` (colon-separated): the
/// absolute entries; empty and relative ones are skipped, as the XDG base
/// directory specification asks.
pub open spec fn xdg_bases(xdg: Option<Seq<char>>) -> Seq<Seq<char>> {
    match xdg {
        Some(x) => absolute_pieces(split_char(x, ':')),
        None => seq![],
    }
}

/// The home directory, when it is an absolute path.
pub open spec fn abs_home(home: Option<Seq<char>>) -> Option<Seq<char>> {
    match home {
        Some(h) => if has_prefix(h, "/"@) {
            Some(h)
        } else {
            None
        },
        None => None,
    }
}

/// The home directory, when it is an absolute path.
pub fn absolute_home(home: &Option<String>) -> (r: Option<String>)
    ensures
        opt_view(r) == abs_home(opt_view(*home)),
{
    match home {
        Some(h) => {
            let c = chars_of(h.as_str());
            let slash = chars_of("/");
            if starts_with(&c, &slash) {
                Some(h.clone())
            } else {
                None
            }
        },
        None => None,
    }
}

/// The data directories named by the value of `$XDG_DATA_DIRS`, if set.
pub fn xdg_data_bases(xdg: &Option<String>) -> (r: Vec<String>)
    ensures
        r.deep_view() == xdg_bases(opt_view(*xdg)),
{
    let mut out: Vec<String> = Vec::new();
    match xdg {
        None => {},
        Some(x) => {
            let c = chars_of(x.as_str());
            let pieces = split_char_chars(&c, ':');
            let slash = chars_of("/");
            let mut i: usize = 0;
            while i < pieces.len()
                invariant
                    i <= pieces.len(),
                    slash@ == "/"@,
                    out.deep_view() == absolute_pieces(pieces.deep_view().take(i as int)),
                decreases pieces.len() - i,
            {
                assert(pieces.deep_view().take(i + 1).drop_last() =~= pieces.deep_view().take(i as int));
                assert(pieces.deep_view()[i as int] =~= pieces[i as int]@);
                if starts_with(&pieces[i], &slash) {
                    let ghost before = out.deep_view();
                    out.push(string_of(pieces[i].as_slice()));
                    assert(out.deep_view() =~= before.push(pieces[i as int]@));
                }
                i = i + 1;
            }
            assert(pieces.deep_view().take(pieces.len() as int) =~= pieces.deep_view());
        },
    }
    out
}

/// Each base joined with `rel`, marked with `dedup`.
pub open spec fn joined_all(bases: Seq<Seq<char>>, rel: Seq<char>, dedup: bool) -> Seq<(Seq<char>, bool)>
    decreases bases.len(),
{
    if bases.len() == 0 {
        seq![]
    } else {
        joined_all(bases.drop_last(), rel, dedup).push((path_join(bases.last(), rel), dedup))
    }
}

/// Every joined candidate carries the given de-duplication mark, and there
/// is one per base.
proof fn lemma_joined_all_marked(bases: Seq<Seq<char>>, rel: Seq<char>, dedup: bool)
    ensures
        joined_all(bases, rel, dedup).len() == bases.len(),
        forall|i: int| 0 <= i < bases.len() ==> (#[trigger] joined_all(bases, rel, dedup)[i]).1 == dedup,
    decreases bases.len(),
{
    if bases.len() > 0 {
        lemma_joined_all_marked(bases.drop_last(), rel, dedup);
    }
}

/// The application directories looked for, in order, all de-duplicated:
/// `applications` under each `$XDG_DATA_DIRS` entry, the system and
/// flatpak directories, then the user's local and flatpak ones (only
/// absolute bases are used).
pub open spec fn app_dir_candidates(xdg: Option<Seq<char>>, home: Option<Seq<char>>) -> Seq<(Seq<char>, bool)> {
    joined_all(xdg_bases(xdg), "applications"@, true) + seq![
        ("/usr/share/applications"@, true),
        ("/usr/local/share/applications"@, true),
        ("/var/lib/flatpak/exports/share/applications"@, true),
    ] + match abs_home(home) {
        Some(h) => seq![
            (path_join(h, ".local/share/applications"@), true),
            (path_join(h, ".local/share/flatpak/exports/share/applications"@), true),
        ],
        None => seq![],
    }
}

/// Appends a candidate.
fn push_cand(out: &mut Vec<(String, bool)>, p: String, dedup: bool)
    ensures
        final(out).deep_view() == old(out).deep_view().push((p@, dedup)),
{
    let ghost before = out.deep_view();
    let ghost pv = p@;
    out.push((p, dedup));
    assert(out.deep_view() =~= before.push((pv, dedup)));
}

/// The existing application directories, in the order of
/// `app_dir_candidates` and without repeats (as paths), given
/// `$XDG_DATA_DIRS` and the home directory; the answers of the file system
/// are applied by `collect_flagged`.
pub fn get_application_dirs(xdg_data_dirs: &Option<String>, home: &Option<String>) -> (r: Vec<String>)
    ensures
        exists|flags: Seq<bool>|
            flags.len() == app_dir_candidates(opt_view(*xdg_data_dirs), opt_view(*home)).len()
                && r.deep_view() == #[trigger] collect_existing(
                app_dir_candidates(opt_view(*xdg_data_dirs), opt_view(*home)),
                flags,
                true,
            ),
{
    let cands = application_dir_candidates(xdg_data_dirs, home);
    keep_existing(&cands, true)
}

/// The application directories looked for (see `app_dir_candidates`).
pub fn application_dir_candidates(xdg_data_dirs: &Option<String>, home: &Option<String>) -> (cands: Vec<(String, bool)>)
    ensures
        cands.deep_view() == app_dir_candidates(opt_view(*xdg_data_dirs), opt_view(*home)),
{
    let bases = xdg_data_bases(xdg_data_dirs);
    let mut cands: Vec<(String, bool)> = Vec::new();
    let mut i: usize = 0;
    while i < bases.len()
        invariant
            i <= bases.len(),
            cands.deep_view() == joined_all(bases.deep_view().take(i as int), "applications"@, true),
        decreases bases.len() - i,
    {
        assert(bases.deep_view().take(i + 1).drop_last() =~= bases.deep_view().take(i as int));
        assert(bases.deep_view()[i as int] == bases[i as int]@);
        let p = join_path(bases[i].as_str(), "applications");
        push_cand(&mut cands, p, true);
        i = i + 1;
    }
    assert(bases.deep_view().take(bases.len() as int) =~= bases.deep_view());
    let ghost xdg_part = cands.deep_view();
    push_cand(&mut cands, "/usr/share/applications".to_owned(), true);
    push_cand(&mut cands, "/usr/local/share/applications".to_owned(), true);
    push_cand(&mut cands, "/var/lib/flatpak/exports/share/applications".to_owned(), true);
    let ghost std_part = cands.deep_view();
    let home_abs = absolute_home(home);
    match &home_abs {
        Some(h) => {
            push_cand(&mut cands, join_path(h.as_str(), ".local/share/applications"), true);
            push_cand(
                &mut cands,
                join_path(h.as_str(), ".local/share/flatpak/exports/share/applications"),
                true,
            );
        },
        None => {},
    }
    assert(cands.deep_view() =~= app_dir_candidates(opt_view(*xdg_data_dirs), opt_view(*home)));
    cands
}

/// The hicolor icon subdirectories, by size.
pub open spec fn icon_subdirs() -> Seq<Seq<char>> {
    seq![
        "icons/hicolor/48x48/apps"@,
        "icons/hicolor/64x64/apps"@,
        "icons/hicolor/128x128/apps"@,
        "icons/hicolor/256x256/apps"@,
        "icons/hicolor/32x32/apps"@,
        "icons/hicolor/scalable/apps"@,
    ]
}

/// The icon subdirectories of each base, marked with `dedup`.
pub open spec fn sized_dirs(bases: Seq<Seq<char>>, dedup: bool) -> Seq<(Seq<char>, bool)>
    decreases bases.len(),
{
    if bases.len() == 0 {
        seq![]
    } else {
        sized_dirs(bases.drop_last(), dedup) + icon_subdirs().map_values(
            |r: Seq<char>| (path_join(bases.last(), r), dedup),
        )
    }
}

/// The system data directories searched for icons.
pub open spec fn fallback_bases() -> Seq<Seq<char>> {
    seq!["/usr/share"@, "/usr/local/share"@, "/var/lib/flatpak/exports/share"@]
}

/// The icon directories looked for, in order: the sized hicolor
/// directories under each `$XDG_DATA_DIRS` entry (kept even when
/// repeated), under the system data directories and under the user's
/// local and flatpak data directories, then `~/.icons` and
/// `/usr/share/pixmaps` (all of these without repeats); only absolute
/// bases are used, so every candidate is an absolute path.
pub open spec fn icon_dir_candidates(xdg: Option<Seq<char>>, home: Option<Seq<char>>) -> Seq<(Seq<char>, bool)> {
    sized_dirs(xdg_bases(xdg), false) + sized_dirs(fallback_bases(), true) + match abs_home(home) {
        Some(h) => sized_dirs(
            seq![path_join(h, ".local/share"@), path_join(h, ".local/share/flatpak/exports/share"@)],
            true,
        ) + seq![(path_join(h, ".icons"@), true)],
        None => seq![],
    } + seq![("/usr/share/pixmaps"@, true)]
}

/// Appends the icon subdirectories of a base.
fn push_sized(out: &mut Vec<(String, bool)>, base: &str, dedup: bool)
    ensures
        final(out).deep_view() == old(out).deep_view() + icon_subdirs().map_values(
            |r: Seq<char>| (path_join(base@, r), dedup),
        ),
{
    let ghost start = out.deep_view();
    let subs = [
        "icons/hicolor/48x48/apps",
        "icons/hicolor/64x64/apps",
        "icons/hicolor/128x128/apps",
        "icons/hicolor/256x256/apps",
        "icons/hicolor/32x32/apps",
        "icons/hicolor/scalable/apps",
    ];
    let ghost want = icon_subdirs().map_values(|r: Seq<char>| (path_join(base@, r), dedup));
    push_cand(out, join_path(base, subs[0]), dedup);
    push_cand(out, join_path(base, subs[1]), dedup);
    push_cand(out, join_path(base, subs[2]), dedup);
    push_cand(out, join_path(base, subs[3]), dedup);
    push_cand(out, join_path(base, subs[4]), dedup);
    push_cand(out, join_path(base, subs[5]), dedup);
    assert(out.deep_view() =~= start + want);
}

/// The existing icon directories, in the order of `icon_dir_candidates`
/// (repeats compared as text), given `$XDG_DATA_DIRS` and the home
/// directory; the answers of the file system are applied by
/// `collect_flagged`.
pub fn get_icon_search_dirs(xdg_data_dirs: &Option<String>, home: &Option<String>) -> (r: Vec<String>)
    ensures
        exists|flags: Seq<bool>|
            flags.len() == icon_dir_candidates(opt_view(*xdg_data_dirs), opt_view(*home)).len()
                && r.deep_view() == #[trigger] collect_existing(
                icon_dir_candidates(opt_view(*xdg_data_dirs), opt_view(*home)),
                flags,
                false,
            ),
{
    let cands = icon_dir_candidate_list(xdg_data_dirs, home);
    keep_existing(&cands, false)
}

/// The icon directories looked for (see `icon_dir_candidates`).
pub fn icon_dir_candidate_list(xdg_data_dirs: &Option<String>, home: &Option<String>) -> (cands: Vec<(String, bool)>)
    ensures
        cands.deep_view() == icon_dir_candidates(opt_view(*xdg_data_dirs), opt_view(*home)),
{
    let bases = xdg_data_bases(xdg_data_dirs);
    let mut cands: Vec<(String, bool)> = Vec::new();
    let mut i: usize = 0;
    while i < bases.len()
        invariant
            i <= bases.len(),
            cands.deep_view() == sized_dirs(bases.deep_view().take(i as int), false),
        decreases bases.len() - i,
    {
        assert(bases.deep_view().take(i + 1).drop_last() =~= bases.deep_view().take(i as int));
        assert(bases.deep_view()[i as int] == bases[i as int]@);
        push_sized(&mut cands, bases[i].as_str(), false);
        i = i + 1;
    }
    assert(bases.deep_view().take(bases.len() as int) =~= bases.deep_view());
    let ghost xdg_part = cands.deep_view();
    push_sized(&mut cands, "/usr/share", true);
    push_sized(&mut cands, "/usr/local/share", true);
    push_sized(&mut cands, "/var/lib/flatpak/exports/share", true);
    proof {
        let fb = fallback_bases();
        let m1 = icon_subdirs().map_values(|r: Seq<char>| (path_join("/usr/share"@, r), true));
        let m2 = icon_subdirs().map_values(|r: Seq<char>| (path_join("/usr/local/share"@, r), true));
        let m3 = icon_subdirs().map_values(
            |r: Seq<char>| (path_join("/var/lib/flatpak/exports/share"@, r), true),
        );
        assert(fb.drop_last().drop_last().drop_last() =~= Seq::<Seq<char>>::empty());
        assert(fb.drop_last().drop_last().last() == "/usr/share"@);
        assert(fb.drop_last().last() == "/usr/local/share"@);
        assert(fb.last() == "/var/lib/flatpak/exports/share"@);
        assert(sized_dirs(fb.drop_last().drop_last().drop_last(), true) =~= Seq::<(Seq<char>, bool)>::empty());
        assert(Seq::<(Seq<char>, bool)>::empty() + m1 =~= m1);
        assert(sized_dirs(fb.drop_last().drop_last(), true) =~= m1);
        assert(sized_dirs(fb.drop_last(), true) =~= m1 + m2);
        assert(sized_dirs(fb, true) =~= m1 + m2 + m3);
        assert(cands.deep_view() =~= xdg_part + m1 + m2 + m3);
        assert(cands.deep_view() =~= xdg_part + sized_dirs(fb, true));
    }
    let ghost fb_part = cands.deep_view();
    let home_abs = absolute_home(home);
    match &home_abs {
        Some(h) => {
            let a = join_path(h.as_str(), ".local/share");
            let b = join_path(h.as_str(), ".local/share/flatpak/exports/share");
            push_sized(&mut cands, a.as_str(), true);
            push_sized(&mut cands, b.as_str(), true);
            proof {
                let hb = seq![a@, b@];
                let m1 = icon_subdirs().map_values(|r: Seq<char>| (path_join(a@, r), true));
                let m2 = icon_subdirs().map_values(|r: Seq<char>| (path_join(b@, r), true));
                assert(hb.drop_last().drop_last() =~= Seq::<Seq<char>>::empty());
                assert(hb.drop_last().last() == a@);
                assert(hb.last() == b@);
                assert(sized_dirs(hb.drop_last().drop_last(), true) =~= Seq::<(Seq<char>, bool)>::empty());
                assert(Seq::<(Seq<char>, bool)>::empty() + m1 =~= m1);
                assert(sized_dirs(hb.drop_last(), true) =~= m1);
                assert(sized_dirs(hb, true) =~= m1 + m2);
                assert(cands.deep_view() =~= fb_part + m1 + m2);
                assert(cands.deep_view() =~= fb_part + sized_dirs(hb, true));
            }
            push_cand(&mut cands, join_path(h.as_str(), ".icons"), true);
        },
        None => {},
    }
    push_cand(&mut cands, "/usr/share/pixmaps".to_owned(), true);
    assert(cands.deep_view() =~= icon_dir_candidates(opt_view(*xdg_data_dirs), opt_view(*home)));
    cands
}

/// The icon files looked for in each absolute directory: `dir/name.png`,
/// `dir/name.svg`, `dir/name.xpm`, directory by directory (a relative
/// directory is passed over, the result being an absolute path).
pub open spec fn icon_files(name: Seq<char>, dirs: Seq<Seq<char>>) -> Seq<Seq<char>>
    decreases dirs.len(),
{
    if dirs.len() == 0 {
        seq![]
    } else {
        let d = dirs.last();
        icon_files(name, dirs.drop_last()) + if has_prefix(d, "/"@) {
            seq![d + "/"@ + name + ".png"@, d + "/"@ + name + ".svg"@, d + "/"@ + name + ".xpm"@]
        } else {
            seq![]
        }
    }
}

/// The paths tried, in order, for an icon name: an absolute name alone;
/// otherwise the icon files in the search directories (the result is an
/// absolute file path, so a relative name is not tried as a path).
pub open spec fn icon_lookup(name: Seq<char>, dirs: Seq<Seq<char>>) -> Seq<Seq<char>> {
    if has_prefix(name, "/"@) {
        seq![name]
    } else {
        icon_files(name, dirs)
    }
}

/// The first candidate the file system said exists (`flags`).
pub open spec fn pick_first(cands: Seq<Seq<char>>, flags: Seq<bool>) -> Option<Seq<char>>
    decreases cands.len(),
{
    if cands.len() == 0 || flags.len() == 0 {
        None
    } else if flags[0] {
        Some(cands[0])
    } else {
        pick_first(cands.drop_first(), flags.drop_first())
    }
}

/// Answers that are all "no" up to `i` leave the choice to the rest.
proof fn lemma_pick_skip(cands: Seq<Seq<char>>, flags: Seq<bool>, i: int)
    requires
        0 <= i <= cands.len(),
        flags.len() == cands.len(),
        forall|k: int| 0 <= k < i ==> !flags[k],
    ensures
        pick_first(cands, flags) == pick_first(cands.skip(i), flags.skip(i)),
    decreases i,
{
    if i == 0 {
        assert(cands.skip(0) =~= cands);
        assert(flags.skip(0) =~= flags);
    } else {
        lemma_pick_skip(cands.drop_first(), flags.drop_first(), i - 1);
        assert(cands.drop_first().skip(i - 1) =~= cands.skip(i));
        assert(flags.drop_first().skip(i - 1) =~= flags.skip(i));
    }
}

/// The paths tried for an icon name (see `icon_lookup`).
pub fn icon_candidates(icon_name: &str, search_dirs: &Vec<String>) -> (r: Vec<String>)
    ensures
        r.deep_view() == icon_lookup(icon_name@, search_dirs.deep_view()),
{
    let name = chars_of(icon_name);
    let slash = chars_of("/");
    let mut out: Vec<String> = Vec::new();
    if starts_with(&name, &slash) {
        out.push(icon_name.to_owned());
        assert(out.deep_view() =~= seq![icon_name@]);
        return out;
    }
    assert(icon_files(icon_name@, search_dirs.deep_view().take(0)) =~= Seq::<Seq<char>>::empty());
    let mut i: usize = 0;
    while i < search_dirs.len()
        invariant
            i <= search_dirs.len(),
            slash@ == "/"@,
            out.deep_view() == icon_files(icon_name@, search_dirs.deep_view().take(i as int)),
        decreases search_dirs.len() - i,
    {
        let d = search_dirs[i].as_str();
        assert(search_dirs.deep_view()[i as int] == d@);
        assert(search_dirs.deep_view().take(i + 1).drop_last() =~= search_dirs.deep_view().take(i as int));
        let dc = chars_of(d);
        let ghost before = out.deep_view();
        if starts_with(&dc, &slash) {
            let base = concat_str(d, "/");
            let stem = concat_str(base.as_str(), icon_name);
            out.push(concat_str(stem.as_str(), ".png"));
            out.push(concat_str(stem.as_str(), ".svg"));
            out.push(concat_str(stem.as_str(), ".xpm"));
            assert(out.deep_view() =~= before + seq![
                d@ + "/"@ + icon_name@ + ".png"@,
                d@ + "/"@ + icon_name@ + ".svg"@,
                d@ + "/"@ + icon_name@ + ".xpm"@,
            ]);
        } else {
            assert(before + Seq::<Seq<char>>::empty() =~= before);
        }
        i = i + 1;
    }
    assert(search_dirs.deep_view().take(search_dirs.len() as int) =~= search_dirs.deep_view());
    out
}

/// The first candidate whose answer in `exists` is yes.
pub fn pick_existing(cands: &Vec<String>, exists: &Vec<bool>) -> (r: Option<String>)
    requires
        exists@.len() == cands@.len(),
    ensures
        opt_view(r) == pick_first(cands.deep_view(), exists@),
{
    let ghost cv = cands.deep_view();
    let mut i: usize = 0;
    while i < cands.len()
        invariant
            i <= cands.len(),
            exists@.len() == cands@.len(),
            cv == cands.deep_view(),
            forall|k: int| 0 <= k < i ==> !exists@[k],
        decreases cands.len() - i,
    {
        if exists[i] {
            proof {
                lemma_pick_skip(cv, exists@, i as int);
                assert(cv.skip(i as int)[0] == cands[i as int]@);
            }
            return Some(cands[i].clone());
        }
        i = i + 1;
    }
    proof {
        lemma_pick_skip(cv, exists@, cv.len() as int);
    }
    None
}

/// The first candidate answered yes is what `pick_first` gives, and none
/// when no answer is yes.
proof fn lemma_pick_first(cands: Seq<Seq<char>>, flags: Seq<bool>)
    requires
        flags.len() == cands.len(),
    ensures
        pick_first(cands, flags) matches Some(p) ==> exists|i: int|
            0 <= i < cands.len() && flags[i] && #[trigger] cands[i] == p && forall|j: int| 0 <= j < i ==> !flags[j],
        pick_first(cands, flags) is None ==> forall|i: int| 0 <= i < cands.len() ==> !flags[i],
    decreases cands.len(),
{
    if cands.len() > 0 && !flags[0] {
        let c = cands.drop_first();
        let f = flags.drop_first();
        lemma_pick_first(c, f);
        if pick_first(c, f) is Some {
            let p = pick_first(c, f)->0;
            let i = choose|i: int| 0 <= i < c.len() && f[i] && #[trigger] c[i] == p && forall|j: int|
                0 <= j < i ==> !f[j];
            assert(cands[i + 1] == p && flags[i + 1]);
            assert forall|j: int| 0 <= j < i + 1 implies !flags[j] by {
                if j > 0 {
                    assert(flags[j] == f[j - 1]);
                }
            }
        } else {
            assert forall|i: int| 0 <= i < cands.len() implies !flags[i] by {
                if i > 0 {
                    assert(flags[i] == f[i - 1]);
                }
            }
        }
    } else if cands.len() > 0 {
        assert(cands[0] == pick_first(cands, flags)->0);
    }
}

/// Icon files are absolute paths.
proof fn lemma_icon_files_absolute(name: Seq<char>, dirs: Seq<Seq<char>>)
    ensures
        forall|k: int| 0 <= k < icon_files(name, dirs).len() ==> has_prefix(#[trigger] icon_files(name, dirs)[k], "/"@),
    decreases dirs.len(),
{
    reveal_strlit("/");
    if dirs.len() > 0 {
        let d = dirs.last();
        lemma_icon_files_absolute(name, dirs.drop_last());
        let prev = icon_files(name, dirs.drop_last());
        let last3 = seq![d + "/"@ + name + ".png"@, d + "/"@ + name + ".svg"@, d + "/"@ + name + ".xpm"@];
        assert forall|k: int| 0 <= k < icon_files(name, dirs).len() implies has_prefix(#[trigger] icon_files(name, dirs)[k], "/"@) by {
            if k < prev.len() {
                assert(icon_files(name, dirs)[k] == prev[k]);
            } else {
                let x = last3[k - prev.len()];
                assert(icon_files(name, dirs)[k] == x);
                assert(x[0] == d[0]);
                assert(x.subrange(0, 1) =~= seq![x[0]]);
                assert(d.subrange(0, 1) =~= seq![d[0]]);
            }
        }
    }
}

/// Every path tried for an icon name is absolute.
proof fn lemma_icon_lookup_absolute(name: Seq<char>, dirs: Seq<Seq<char>>)
    ensures
        forall|k: int| 0 <= k < icon_lookup(name, dirs).len() ==> has_prefix(#[trigger] icon_lookup(name, dirs)[k], "/"@),
{
    lemma_icon_files_absolute(name, dirs);
    if has_prefix(name, "/"@) {
        assert(icon_lookup(name, dirs) == seq![name]);
    }
}

/// How an icon name is resolved, given the file system's answers for the
/// candidates in order: an absolute name gives itself exactly when it
/// exists; otherwise the result is the first candidate that exists, in
/// directory order and `.png`, `.svg`, `.xpm` within a directory, and none
/// when none exists; the result is an absolute path.
pub proof fn law_icon_resolution(name: Seq<char>, dirs: Seq<Seq<char>>, exists: Seq<bool>)
    requires
        exists.len() == icon_lookup(name, dirs).len(),
    ensures
        has_prefix(name, "/"@) ==> pick_first(icon_lookup(name, dirs), exists) == (if exists[0] {
            Some(name)
        } else {
            None
        }),
        !has_prefix(name, "/"@) ==> icon_lookup(name, dirs) == icon_files(name, dirs),
        pick_first(icon_lookup(name, dirs), exists) matches Some(p) ==> exists|i: int|
            0 <= i < exists.len() && exists[i] && #[trigger] icon_lookup(name, dirs)[i] == p && forall|j: int|
                0 <= j < i ==> !exists[j],
        pick_first(icon_lookup(name, dirs), exists) is None ==> forall|i: int| 0 <= i < exists.len() ==> !exists[i],
        pick_first(icon_lookup(name, dirs), exists) matches Some(p) ==> has_prefix(p, "/"@),
{
    let c = icon_lookup(name, dirs);
    lemma_pick_first(c, exists);
    lemma_icon_lookup_absolute(name, dirs);
    if has_prefix(name, "/"@) {
        assert(c == seq![name]);
        assert(c.drop_first().len() == 0);
    }
}

/// Resolves an icon name to an existing file: an absolute name if it
/// exists; else the first existing `dir/name.png`, `dir/name.svg` or
/// `dir/name.xpm`, trying the directories in order.  The file system's
/// answers are applied by `pick_existing`.
pub fn resolve_icon_path(icon_name: &str, search_dirs: &Vec<String>) -> (r: Option<String>)
    ensures
        exists|flags: Seq<bool>|
            flags.len() == icon_lookup(icon_name@, search_dirs.deep_view()).len() && opt_view(r)
                == #[trigger] pick_first(icon_lookup(icon_name@, search_dirs.deep_view()), flags),
        r matches Some(p) ==> has_prefix(p@, "/"@),
{
    let cands = icon_candidates(icon_name, search_dirs);
    let answers = existence_of(&cands);
    let r = pick_existing(&cands, &answers);
    proof {
        law_icon_resolution(icon_name@, search_dirs.deep_view(), answers@);
    }
    r
}

/// The digit of a six-bit value in the standard base64 alphabet
/// (`A`-`Z`, `a`-`z`, `0`-`9`, `+`, `/`).
pub open spec fn b64_digit(v: int) -> char {
    if v < 26 {
        (65 + v) as char
    } else if v < 52 {
        (97 + (v - 26)) as char
    } else if v < 62 {
        (48 + (v - 52)) as char
    } else if v == 62 {
        '+'
    } else {
        '/'
    }
}

/// Standard base64 with padding: each three bytes become four digits; a
/// final one or two bytes become two or three digits and `=` padding.
pub open spec fn base64_standard(d: Seq<u8>) -> Seq<char>
    decreases d.len(),
{
    if d.len() == 0 {
        seq![]
    } else if d.len() == 1 {
        seq![b64_digit(d[0] as int / 4), b64_digit((d[0] as int % 4) * 16), '=', '=']
    } else if d.len() == 2 {
        seq![
            b64_digit(d[0] as int / 4),
            b64_digit((d[0] as int % 4) * 16 + d[1] as int / 16),
            b64_digit((d[1] as int % 16) * 4),
            '=',
        ]
    } else {
        seq![
            b64_digit(d[0] as int / 4),
            b64_digit((d[0] as int % 4) * 16 + d[1] as int / 16),
            b64_digit((d[1] as int % 16) * 4 + d[2] as int / 64),
            b64_digit(d[2] as int % 64),
        ] + base64_standard(d.skip(3))
    }
}

/// Calls `base64::engine::general_purpose::STANDARD.encode`: standard
/// alphabet with padding, as `base64_standard` states.  The encoder panics
/// when the encoded length overflows `usize`, which no slice of at most
/// `isize::MAX` bytes reaches.
#[verifier::external_body]
fn encode_base64(data: &[u8]) -> (s: String)
    requires
        data@.len() <= isize::MAX,
    ensures
        s@ == base64_standard(data@),
{
    base64::engine::general_purpose::STANDARD.encode(data)
}

/// The data URI of an icon file's bytes: an SVG file as UTF-8 text when
/// its bytes are UTF-8 (else base64), a PNG file as base64, other files
/// none.
pub open spec fn icon_uri(path: Seq<char>, data: Seq<u8>) -> Option<Seq<char>> {
    if has_suffix(path, ".svg"@) {
        if vstd::utf8::valid_utf8(data) {
            Some("data:image/svg+xml;utf8,"@ + vstd::utf8::decode_utf8(data))
        } else {
            Some("data:image/svg+xml;base64,"@ + base64_standard(data))
        }
    } else if has_suffix(path, ".png"@) {
        Some("data:image/png;base64,"@ + base64_standard(data))
    } else {
        None
    }
}

/// Turns an icon file's bytes into a data URI (base64 for binary, UTF-8
/// for SVG).
pub fn icon_data_uri(path: &str, data: Vec<u8>) -> (r: Option<String>)
    requires
        data@.len() <= isize::MAX,
    ensures
        opt_view(r) == icon_uri(path@, data@),
{
    let p = chars_of(path);
    let svg = chars_of(".svg");
    let png = chars_of(".png");
    if ends_with(&p, &svg) {
        let bytes = data.clone();
        match string_from_utf8(bytes) {
            Some(text) => Some(concat_str("data:image/svg+xml;utf8,", text.as_str())),
            None => {
                let enc = encode_base64(data.as_slice());
                Some(concat_str("data:image/svg+xml;base64,", enc.as_str()))
            },
        }
    } else if ends_with(&p, &png) {
        let enc = encode_base64(data.as_slice());
        Some(concat_str("data:image/png;base64,", enc.as_str()))
    } else {
        None
    }
}

/// The index of the last `.` in `s[..n]`.
pub open spec fn last_dot_before(s: Seq<char>, n: int) -> Option<int>
    decreases n,
{
    if n <= 0 {
        None
    } else if s[n - 1] == '.' {
        Some(n - 1)
    } else {
        last_dot_before(s, n - 1)
    }
}

/// The extension of a file name (`Path::extension`): none for `..`, for a
/// name without a dot, or for a name whose only dot is its first
/// character; else what follows the last dot.
pub open spec fn extension_of(file_name: Seq<char>) -> Option<Seq<char>> {
    if file_name == ".."@ {
        None
    } else {
        match last_dot_before(file_name, file_name.len() as int) {
            None => None,
            Some(k) => if k == 0 {
                None
            } else {
                Some(file_name.skip(k + 1))
            },
        }
    }
}

/// The extension of a file name.
pub fn file_extension(file_name: &str) -> (r: Option<String>)
    ensures
        opt_view(r) == extension_of(file_name@),
{
    let s = chars_of(file_name);
    if is_lit(&s, "..") {
        return None;
    }
    let mut n = s.len();
    while n > 0 && s[n - 1] != '.'
        invariant
            n <= s.len(),
            last_dot_before(s@, s@.len() as int) == last_dot_before(s@, n as int),
        decreases n,
    {
        n = n - 1;
    }
    if n == 0 || n == 1 {
        return None;
    }
    let e = crate::text::sub_chars(&s, n, s.len());
    assert(e@ =~= s@.skip(n as int));
    Some(string_of(e.as_slice()))
}

/// Whether a file name has the `desktop` extension.
pub fn is_desktop_file(file_name: &str) -> (b: bool)
    ensures
        b == (extension_of(file_name@) == Some("desktop"@)),
{
    match file_extension(file_name) {
        Some(e) => {
            let c = chars_of(e.as_str());
            is_lit(&c, "desktop")
        },
        None => false,
    }
}

/// The user directory a line of `user-dirs.dirs` names: the trimmed line,
/// unless empty or a comment, split at its first `=`, the value trimmed
/// and stripped of quotes, with `$HOME` replaced by the home directory.
pub open spec fn user_dir_of_line(line: Seq<char>, home: Seq<char>) -> Option<Seq<char>> {
    let l = trim(line);
    if l.len() == 0 || has_prefix(l, "#"@) {
        None
    } else {
        match split_once(l, '=') {
            None => None,
            Some((_, v)) => Some(replace_all(trim_char(trim(v), '"'), "$HOME"@, home)),
        }
    }
}

/// The directories the lines name, each path once (compared as paths), in
/// order of first mention.
pub open spec fn user_dirs_from(ls: Seq<Seq<char>>, home: Seq<char>) -> Seq<Seq<char>>
    decreases ls.len(),
{
    if ls.len() == 0 {
        seq![]
    } else {
        let acc = user_dirs_from(ls.drop_last(), home);
        match user_dir_of_line(ls.last(), home) {
            Some(p) => if already_kept(acc, p, true) {
                acc
            } else {
                acc.push(p)
            },
            None => acc,
        }
    }
}

/// The usual user directories under the home directory.
pub open spec fn default_user_dirs(home: Seq<char>) -> Seq<Seq<char>> {
    seq![
        path_join(home, "Documents"@),
        path_join(home, "Downloads"@),
        path_join(home, "Desktop"@),
        path_join(home, "Pictures"@),
        path_join(home, "Videos"@),
        path_join(home, "Music"@),
    ]
}

/// The user directories of a `user-dirs.dirs` text (if it could be read),
/// or the usual ones when it names none.
pub open spec fn xdg_user_dirs(content: Option<Seq<char>>, home: Seq<char>) -> Seq<Seq<char>> {
    let dirs = match content {
        Some(c) => user_dirs_from(lines(c), home),
        None => seq![],
    };
    if dirs.len() == 0 {
        default_user_dirs(home)
    } else {
        dirs
    }
}

/// The directory a line names, if any.
fn user_dir_of_line_exec(line: &Vec<char>, home: &Vec<char>) -> (r: Option<Vec<char>>)
    ensures
        opt_chars(r) == user_dir_of_line(line@, home@),
{
    let l = trim_chars(line);
    let hash = chars_of("#");
    if l.len() == 0 || starts_with(&l, &hash) {
        return None;
    }
    match split_once_chars(&l, '=') {
        None => None,
        Some((_, v)) => {
            let t = trim_chars(&v);
            let u = trim_char_chars(&t, '"');
            let pat = chars_of("$HOME");
            proof {
                reveal_strlit("$HOME");
            }
            Some(replace_chars(&u, &pat, home))
        },
    }
}

/// The user's directories as `~/.config/user-dirs.dirs` names them, given
/// its text if it could be read, or the usual ones under `home`.
pub fn parse_xdg_user_dirs(content: Option<String>, home: &str) -> (r: Vec<String>)
    ensures
        r.deep_view() == xdg_user_dirs(opt_view(content), home@),
{
    let hc = chars_of(home);
    let mut dirs: Vec<String> = Vec::new();
    match &content {
        Some(c) => {
            let text = chars_of(c.as_str());
            let ls = lines_chars(&text);
            let mut i: usize = 0;
            while i < ls.len()
                invariant
                    i <= ls.len(),
                    hc@ == home@,
                    dirs.deep_view() == user_dirs_from(ls.deep_view().take(i as int), home@),
                decreases ls.len() - i,
            {
                assert(ls.deep_view().take(i + 1).drop_last() =~= ls.deep_view().take(i as int));
                assert(ls.deep_view()[i as int] =~= ls[i as int]@);
                match user_dir_of_line_exec(&ls[i], &hc) {
                    Some(p) => {
                        let ps = string_of(p.as_slice());
                        if !holds_path(&dirs, ps.as_str()) {
                            let ghost before = dirs.deep_view();
                            dirs.push(ps);
                            assert(dirs.deep_view() =~= before.push(p@));
                        }
                    },
                    None => {},
                }
                i = i + 1;
            }
            assert(ls.deep_view().take(ls.len() as int) =~= ls.deep_view());
        },
        None => {},
    }
    if dirs.len() == 0 {
        let mut d: Vec<String> = Vec::new();
        d.push(join_path(home, "Documents"));
        d.push(join_path(home, "Downloads"));
        d.push(join_path(home, "Desktop"));
        d.push(join_path(home, "Pictures"));
        d.push(join_path(home, "Videos"));
        d.push(join_path(home, "Music"));
        assert(d.deep_view() =~= default_user_dirs(home@));
        return d;
    }
    dirs
}

} // verus!
