//! Fuzzy ranking of an indexed file against a query.
use vstd::prelude::*;
use vstd::string::*;
use crate::text::{
    byte_len, chars_of, contains, contains_chars, count_char, count_char_chars, eq_chars, find, occurs_at,
    find_chars, has_prefix, is_lit, is_alphanumeric, char_is_alphanumeric, lower_chars, lowercase,
    split_whitespace, split_whitespace_chars, starts_with, to_lowercase, utf8_len,
};

verus! {

/// `n` can be matched, character by character and in order, inside `h`
/// (greedily, each needle character at its first possible position).
pub open spec fn is_subseq(n: Seq<char>, h: Seq<char>) -> bool
    decreases h.len(),
{
    if n.len() == 0 {
        true
    } else if h.len() == 0 {
        false
    } else if h[0] == n[0] {
        is_subseq(n.drop_first(), h.drop_first())
    } else {
        is_subseq(n, h.drop_first())
    }
}

/// Whether `needle` is a subsequence of `haystack`.
pub fn is_subsequence(needle: &str, haystack: &str) -> (b: bool)
    ensures
        b == is_subseq(needle@, haystack@),
{
    let n = chars_of(needle);
    let h = chars_of(haystack);
    let mut i: usize = 0;
    let mut j: usize = 0;
    assert(n@.skip(0) =~= n@);
    assert(h@.skip(0) =~= h@);
    while i < n.len()
        invariant
            i <= n.len(),
            j <= h.len(),
            n@ == needle@,
            h@ == haystack@,
            is_subseq(n@, h@) == is_subseq(n@.skip(i as int), h@.skip(j as int)),
        decreases n.len() - i + h.len() - j,
    {
        if j == h.len() {
            return false;
        }
        assert(n@.skip(i as int).drop_first() =~= n@.skip(i + 1));
        assert(h@.skip(j as int).drop_first() =~= h@.skip(j + 1));
        if h[j] == n[i] {
            i = i + 1;
        }
        j = j + 1;
    }
    true
}

/// The greedy walk of `n` through `h` from haystack index `k`, needle index
/// `j`, previous match `last` and summed gap `total`: the final needle
/// index, last matched haystack index and sum of gaps between matches.
pub open spec fn cluster_walk(
    n: Seq<char>,
    h: Seq<char>,
    k: int,
    j: int,
    last: Option<int>,
    total: int,
) -> (int, Option<int>, int)
    decreases h.len() - k,
{
    if k < 0 || k >= h.len() || j < 0 || j >= n.len() {
        (j, last, total)
    } else if h[k] == n[j] {
        cluster_walk(
            n,
            h,
            k + 1,
            j + 1,
            Some(k),
            match last {
                Some(p) => total + (k - p),
                None => total,
            },
        )
    } else {
        cluster_walk(n, h, k + 1, j, last, total)
    }
}

/// The walk from the start of both sequences.
pub open spec fn clustering_walk(n: Seq<char>, h: Seq<char>) -> (int, Option<int>, int) {
    cluster_walk(n, h, 0, 0, None, 0)
}

/// The walk matched every needle character, the needle having more than one UTF-8 byte.
pub open spec fn clustering_scored(n: Seq<char>, h: Seq<char>) -> bool {
    let w = clustering_walk(n, h);
    w.0 == n.len() && w.1 is Some && utf8_len(n) > 1
}

/// How much the matched span exceeds its ideal width (in needle bytes minus one).
pub open spec fn clustering_excess(n: Seq<char>, h: Seq<char>) -> int {
    clustering_walk(n, h).2 - (utf8_len(n) - 1)
}

/// The clustering bonus: 250 less 15 per unit of excess, when scored.
pub open spec fn clustering_score(n: Seq<char>, h: Seq<char>) -> int {
    if clustering_scored(n, h) {
        250 - clustering_excess(n, h) * 15
    } else {
        0
    }
}

/// The inputs on which the clustering bonus is computed without an
/// unsigned underflow or a signed overflow.
pub open spec fn clustering_in_range(n: Seq<char>, h: Seq<char>) -> bool {
    clustering_scored(n, h) ==> 0 <= clustering_excess(n, h) && clustering_excess(n, h) * 15
        <= i32::MAX
}

/// Runs the clustering walk.
fn walk_exec(n: &Vec<char>, h: &Vec<char>) -> (r: (usize, Option<usize>, usize))
    ensures
        clustering_walk(n@, h@) == (
            r.0 as int,
            match r.1 {
                Some(p) => Some(p as int),
                None => None,
            },
            r.2 as int,
        ),
        r.2 <= h.len(),
{
    let mut k: usize = 0;
    let mut j: usize = 0;
    let mut last: Option<usize> = None;
    let mut total: usize = 0;
    while k < h.len() && j < n.len()
        invariant
            k <= h.len(),
            j <= n.len(),
            last matches Some(p) ==> p < k && total <= p,
            last is None ==> total == 0,
            clustering_walk(n@, h@) == cluster_walk(
                n@,
                h@,
                k as int,
                j as int,
                match last {
                    Some(p) => Some(p as int),
                    None => None,
                },
                total as int,
            ),
        decreases h.len() - k,
    {
        if h[k] == n[j] {
            match last {
                Some(p) => {
                    total = total + (k - p);
                },
                None => {},
            }
            last = Some(k);
            j = j + 1;
        }
        k = k + 1;
    }
    (j, last, total)
}

/// Whether the clustering bonus of `needle` in `haystack` is computed in range.
pub fn clustering_defined(needle: &str, haystack: &str) -> (b: bool)
    ensures
        b == clustering_in_range(needle@, haystack@),
{
    let n = chars_of(needle);
    let h = chars_of(haystack);
    let w = walk_exec(&n, &h);
    let bytes = byte_len(needle);
    if w.0 == n.len() && w.1.is_some() && bytes > 1 {
        let ideal = bytes - 1;
        w.2 >= ideal && w.2 - ideal <= 143165576
    } else {
        true
    }
}

/// Bonus for how tightly the characters of `needle` cluster in `haystack`.
pub fn score_subsequence_clustering(needle: &str, haystack: &str) -> (score: i32)
    requires
        clustering_in_range(needle@, haystack@),
    ensures
        score == clustering_score(needle@, haystack@),
{
    let n = chars_of(needle);
    let h = chars_of(haystack);
    let w = walk_exec(&n, &h);
    let mut score: i32 = 0;
    if w.0 == n.len() && w.1.is_some() {
        let needle_len = byte_len(needle);
        if needle_len > 1 {
            let ideal_dist = needle_len - 1;
            let excess = w.2 - ideal_dist;
            score = 250 - (excess as i32) * 15;
        }
    }
    score
}

/// The number of `terms` that occur in `s`.
pub open spec fn count_contained(terms: Seq<Seq<char>>, s: Seq<char>) -> int
    decreases terms.len(),
{
    if terms.len() == 0 {
        0
    } else {
        count_contained(terms.drop_last(), s) + if contains(s, terms.last()) {
            1int
        } else {
            0
        }
    }
}

/// No alphanumeric character stands at character index `idx - 1` of `s`.
pub open spec fn boundary_before(s: Seq<char>, idx: int) -> bool {
    idx == 0 || !(0 <= idx - 1 < s.len() && is_alphanumeric(s[idx - 1]))
}

/// The subsequence branch of the name match is taken.
pub open spec fn name_subseq_branch(ql: Seq<char>, nl: Seq<char>) -> bool {
    !has_prefix(nl, ql) && find(nl, ql) is None && is_subseq(ql, nl)
}

/// How strongly the lowercase name (or, failing that, path) matches the lowercase query.
pub open spec fn name_match_score(ql: Seq<char>, nl: Seq<char>, pl: Seq<char>) -> int {
    if has_prefix(nl, ql) {
        5000
    } else if find(nl, ql) is Some {
        // the byte offset of the match is read as a character index
        if boundary_before(nl, utf8_len(nl.take(find(nl, ql)->0)) as int) {
            3000
        } else {
            1500
        }
    } else if is_subseq(ql, nl) {
        800 + clustering_score(ql, nl)
    } else if contains(pl, ql) {
        400
    } else if is_subseq(ql, pl) {
        100
    } else {
        0
    }
}

/// The score after the multi-word adjustment, or `None` when the query is a mismatch.
pub open spec fn term_adjusted(base: int, terms: Seq<Seq<char>>, nl: Seq<char>, pl: Seq<char>) -> Option<int> {
    if terms.len() > 1 {
        let nm = count_contained(terms, nl);
        let pm = count_contained(terms, pl);
        if nm == terms.len() {
            Some(base + 2000)
        } else if nm + pm >= terms.len() {
            Some(base + 1000 + nm * 300)
        } else {
            None
        }
    } else if terms.len() == 1 && base == 0 {
        None
    } else {
        Some(base)
    }
}

/// Bonus for a path inside a project or source tree.
pub open spec fn code_dir_bonus(pl: Seq<char>) -> int {
    if contains(pl, "/projects/"@) || contains(pl, "/src/"@) {
        400
    } else {
        0
    }
}

/// Bonus for a path inside the desktop, documents or downloads folder.
pub open spec fn user_dir_bonus(pl: Seq<char>) -> int {
    if contains(pl, "/desktop/"@) || contains(pl, "/documents/"@) || contains(pl, "/downloads/"@) {
        250
    } else {
        0
    }
}

/// The common code, document and media extensions.
pub open spec fn important_ext(el: Seq<char>) -> bool {
    ||| el == "rs"@ ||| el == "js"@ ||| el == "ts"@ ||| el == "py"@ ||| el == "sh"@
    ||| el == "json"@ ||| el == "html"@ ||| el == "css"@ ||| el == "md"@ ||| el == "txt"@
    ||| el == "pdf"@ ||| el == "doc"@ ||| el == "docx"@ ||| el == "xls"@ ||| el == "xlsx"@
    ||| el == "ppt"@ ||| el == "pptx"@ ||| el == "png"@ ||| el == "jpg"@ ||| el == "jpeg"@
    ||| el == "svg"@ ||| el == "webp"@ ||| el == "mp3"@ ||| el == "mp4"@ ||| el == "mkv"@
    ||| el == "wav"@
}

/// The penalties and bonuses applied to an adjusted score `s`.
pub open spec fn finished_score(s: int, pl: Seq<char>, el: Seq<char>, name: Seq<char>, path: Seq<char>) -> int {
    s - count_char(path, '/') * 50 - utf8_len(name) * 5 - utf8_len(path) * 2 + code_dir_bonus(pl)
        + user_dir_bonus(pl) + if important_ext(el) {
        150int
    } else {
        0
    }
}

/// The score of a file, given the lowercase query `ql`, lowercase name
/// `nl`, lowercase path `pl`, lowercase extension `el` and the name and path
/// as given (`name` and `path`).
pub open spec fn score_of(
    ql: Seq<char>,
    nl: Seq<char>,
    pl: Seq<char>,
    el: Seq<char>,
    name: Seq<char>,
    path: Seq<char>,
) -> int {
    if nl == ql {
        10000
    } else {
        match term_adjusted(name_match_score(ql, nl, pl), split_whitespace(ql), nl, pl) {
            None => 0,
            Some(s) => finished_score(s, pl, el, name, path),
        }
    }
}

/// `x` is a value of `i32`.
pub open spec fn in_i32(x: int) -> bool {
    i32::MIN <= x <= i32::MAX
}

/// Every step of the score is computed within `i32` (and, in the
/// clustering branch, without an unsigned underflow): the inputs on which
/// the computation neither overflows nor panics.
pub open spec fn score_in_range(
    ql: Seq<char>,
    nl: Seq<char>,
    pl: Seq<char>,
    el: Seq<char>,
    name: Seq<char>,
    path: Seq<char>,
) -> bool {
    nl == ql || {
        let base = name_match_score(ql, nl, pl);
        let terms = split_whitespace(ql);
        let nm = count_contained(terms, nl);
        let pm = count_contained(terms, pl);
        &&& name_subseq_branch(ql, nl) ==> clustering_in_range(ql, nl)
        &&& (terms.len() > 1 && nm != terms.len() && nm + pm >= terms.len()) ==> in_i32(base + 1000 + nm * 300) && in_i32(
            1000 + nm * 300,
        )
        &&& match term_adjusted(base, terms, nl, pl) {
            None => true,
            Some(s) => {
                let a = s - count_char(path, '/') * 50;
                let b = a - utf8_len(name) * 5;
                let c = b - utf8_len(path) * 2;
                let d = c + code_dir_bonus(pl);
                let e = d + user_dir_bonus(pl);
                &&& in_i32(s)
                &&& in_i32(count_char(path, '/') * 50)
                &&& in_i32(a)
                &&& in_i32(utf8_len(name) as int * 5)
                &&& in_i32(b)
                &&& in_i32(utf8_len(path) as int * 2)
                &&& in_i32(c)
                &&& in_i32(d)
                &&& in_i32(e)
                &&& in_i32(finished_score(s, pl, el, name, path))
            },
        }
    }
}

/// Counts the terms that occur in `s`.
fn count_contained_exec(terms: &Vec<Vec<char>>, s: &Vec<char>) -> (n: usize)
    ensures
        n as int == count_contained(terms.deep_view(), s@),
        n <= terms.len(),
{
    let mut n: usize = 0;
    let mut i: usize = 0;
    while i < terms.len()
        invariant
            i <= terms.len(),
            n <= i,
            n as int == count_contained(terms.deep_view().take(i as int), s@),
        decreases terms.len() - i,
    {
        assert(terms.deep_view().take(i + 1).drop_last() =~= terms.deep_view().take(i as int));
        assert(terms.deep_view()[i as int] =~= terms[i as int]@);
        if contains_chars(s, &terms[i]) {
            n = n + 1;
        }
        i = i + 1;
    }
    assert(terms.deep_view().take(terms.len() as int) =~= terms.deep_view());
    n
}

/// The name-match part of the score.
fn name_match_exec(ql: &str, nl: &str, pl: &str, q: &Vec<char>, nv: &Vec<char>, pv: &Vec<char>) -> (score: i64)
    requires
        q@ == ql@,
        nv@ == nl@,
        pv@ == pl@,
        name_subseq_branch(ql@, nl@) ==> clustering_in_range(ql@, nl@),
    ensures
        score == name_match_score(ql@, nl@, pv@),
{
    if starts_with(nv, q) {
        5000
    } else {
        match find_chars(nv, q) {
            Some(k) => {
                proof {
                    crate::text::lemma_find_from(nv@, q@, 0);
                }
                let prefix = nl.substring_char(0, k);
                let idx = byte_len(prefix);
                if idx == 0 || !(idx - 1 < nv.len() && char_is_alphanumeric(nv[idx - 1])) {
                    3000
                } else {
                    1500
                }
            },
            None => {
                if is_subsequence(ql, nl) {
                    800 + score_subsequence_clustering(ql, nl) as i64
                } else if contains_chars(pv, q) {
                    400
                } else if is_subsequence(ql, pl) {
                    100
                } else {
                    0
                }
            },
        }
    }
}

/// Whether the lowercase extension is a common code, document or media extension.
fn important_ext_exec(ev: &Vec<char>) -> (b: bool)
    ensures
        b == important_ext(ev@),
{
    is_lit(ev, "rs") || is_lit(ev, "js") || is_lit(ev, "ts") || is_lit(ev, "py") || is_lit(ev, "sh")
        || is_lit(ev, "json") || is_lit(ev, "html") || is_lit(ev, "css") || is_lit(ev, "md")
        || is_lit(ev, "txt") || is_lit(ev, "pdf") || is_lit(ev, "doc") || is_lit(ev, "docx")
        || is_lit(ev, "xls") || is_lit(ev, "xlsx") || is_lit(ev, "ppt") || is_lit(ev, "pptx")
        || is_lit(ev, "png") || is_lit(ev, "jpg") || is_lit(ev, "jpeg") || is_lit(ev, "svg")
        || is_lit(ev, "webp") || is_lit(ev, "mp3") || is_lit(ev, "mp4") || is_lit(ev, "mkv")
        || is_lit(ev, "wav")
}

/// Whether the lowercase path contains the given fragment.
fn path_has(pv: &Vec<char>, frag: &str) -> (b: bool)
    ensures
        b == contains(pv@, frag@),
{
    let f = chars_of(frag);
    contains_chars(pv, &f)
}

/// The score from lowercase query, name, path and extension and the
/// name and path as given; `None` exactly on the inputs where computing it
/// would overflow `i32` (or underflow in the clustering bonus).
pub fn score_lowered_checked(ql: &str, nl: &str, pl: &str, el: &str, name: &str, path: &str) -> (r:
    Option<i32>)
    ensures
        r is Some <==> score_in_range(ql@, nl@, pl@, el@, name@, path@),
        r matches Some(v) ==> v == score_of(ql@, nl@, pl@, el@, name@, path@),
{
    let q = chars_of(ql);
    let nv = chars_of(nl);
    let pv = chars_of(pl);
    let ev = chars_of(el);
    if eq_chars(&nv, &q) {
        return Some(10000);
    }
    // the clustering bonus is only computed in the subsequence branch
    let subseq_branch = !starts_with(&nv, &q) && find_chars(&nv, &q).is_none() && is_subsequence(
        ql,
        nl,
    );
    if subseq_branch && !clustering_defined(ql, nl) {
        return None;
    }
    let base = name_match_exec(ql, nl, pl, &q, &nv, &pv);
    assert(base >= 1050 - i32::MAX && base <= 5000);
    let terms = split_whitespace_chars(&q);
    let mut s: i64 = base;
    if terms.len() > 1 {
        let nm = count_contained_exec(&terms, &nv);
        let pm = count_contained_exec(&terms, &pv);
        if nm == terms.len() {
            s = base + 2000;
        } else if nm >= terms.len() - pm {
            if nm > 7158278 {
                return None;
            }
            let bonus: i64 = 1000 + (nm as i64) * 300;
            if bonus > 2147483647 || base + bonus > 2147483647 {
                return None;
            }
            s = base + bonus;
            assert(in_i32(
                name_match_score(ql@, nl@, pl@) + 1000 + count_contained(split_whitespace(ql@), nl@) * 300,
            ));
            assert(in_i32(1000 + count_contained(split_whitespace(ql@), nl@) * 300));
        } else {
            return Some(0);
        }
    } else if terms.len() == 1 && s == 0 {
        return Some(0);
    }
    let ghost adjusted = s;
    assert(term_adjusted(base as int, terms.deep_view(), nv@, pv@) == Some(adjusted as int));
    let pathv = chars_of(path);
    let slashes = count_char_chars(&pathv, '/');
    let nb = byte_len(name);
    let pb = byte_len(path);
    if slashes > 42949672 || nb > 429496729 || pb > 1073741823 {
        return None;
    }
    let a = s - (slashes as i64) * 50;
    if a < -2147483648 {
        return None;
    }
    let b = a - (nb as i64) * 5;
    if b < -2147483648 {
        return None;
    }
    let c = b - (pb as i64) * 2;
    if c < -2147483648 {
        return None;
    }
    let d = if path_has(&pv, "/projects/") || path_has(&pv, "/src/") {
        c + 400
    } else {
        c
    };
    if d > 2147483647 {
        return None;
    }
    let e = if path_has(&pv, "/desktop/") || path_has(&pv, "/documents/") || path_has(
        &pv,
        "/downloads/",
    ) {
        d + 250
    } else {
        d
    };
    if e > 2147483647 {
        return None;
    }
    let f = if important_ext_exec(&ev) {
        e + 150
    } else {
        e
    };
    if f > 2147483647 {
        return None;
    }
    proof {
        let base_s = name_match_score(ql@, nl@, pl@);
        let terms_s = split_whitespace(ql@);
        let nm_s = count_contained(terms_s, nl@);
        let pm_s = count_contained(terms_s, pl@);
        assert(base_s == base);
        assert(terms_s == terms.deep_view());
        assert((terms_s.len() > 1 && nm_s != terms_s.len() && nm_s + pm_s >= terms_s.len()) ==> in_i32(
            base_s + 1000 + nm_s * 300,
        ) && in_i32(1000 + nm_s * 300));
        assert(term_adjusted(base_s, terms_s, nl@, pl@) == Some(adjusted as int));
        assert(in_i32(count_char(path@, '/') * 50));
        assert(in_i32(utf8_len(name@) as int * 5));
        assert(in_i32(utf8_len(path@) as int * 2));
        assert(f == finished_score(adjusted as int, pl@, el@, name@, path@));
    }
    Some(f as i32)
}

/// The score from lowercase query, name, path and extension and the
/// name and path as given.
pub fn score_lowered(ql: &str, nl: &str, pl: &str, el: &str, name: &str, path: &str) -> (score: i32)
    requires
        score_in_range(ql@, nl@, pl@, el@, name@, path@),
    ensures
        score == score_of(ql@, nl@, pl@, el@, name@, path@),
{
    let r = score_lowered_checked(ql, nl, pl, el, name, path);
    match r {
        Some(v) => v,
        None => 0,
    }
}

/// The inputs of `fuzzy_score` on which it neither overflows nor panics.
pub open spec fn fuzzy_in_range(query: Seq<char>, name: Seq<char>, path: Seq<char>, ext: Seq<char>) -> bool {
    score_in_range(lowercase(query), lowercase(name), lowercase(path), lowercase(ext), name, path)
}

/// The fuzzy score of a file for a query.
pub open spec fn fuzzy_score_of(query: Seq<char>, name: Seq<char>, path: Seq<char>, ext: Seq<char>) -> int {
    score_of(lowercase(query), lowercase(name), lowercase(path), lowercase(ext), name, path)
}

/// Scores a file (its name, full path and extension) against a query:
/// filename match strength, clustering of a subsequence match, multi-word
/// terms, folder depth, length penalties and priority directories and
/// extensions.
pub fn fuzzy_score(query: &str, name: &str, path: &str, ext: &str) -> (score: i32)
    requires
        fuzzy_in_range(query@, name@, path@, ext@),
    ensures
        score == fuzzy_score_of(query@, name@, path@, ext@),
{
    let ql = to_lowercase(query);
    let nl = to_lowercase(name);
    let pl = to_lowercase(path);
    let el = to_lowercase(ext);
    score_lowered(ql.as_str(), nl.as_str(), pl.as_str(), el.as_str(), name, path)
}

/// Scores a file as `fuzzy_score` does, or returns `None` on the inputs
/// where that computation would overflow.
pub fn try_fuzzy_score(query: &str, name: &str, path: &str, ext: &str) -> (r: Option<i32>)
    ensures
        r is Some <==> fuzzy_in_range(query@, name@, path@, ext@),
        r matches Some(v) ==> v == fuzzy_score_of(query@, name@, path@, ext@),
{
    let ql = to_lowercase(query);
    let nl = to_lowercase(name);
    let pl = to_lowercase(path);
    let el = to_lowercase(ext);
    if score_lowered_checked(ql.as_str(), nl.as_str(), pl.as_str(), el.as_str(), name, path).is_some() {
        Some(fuzzy_score(query, name, path, ext))
    } else {
        None
    }
}

/// Matching a needle inside a longer haystack: a subsequence of the tail
/// is a subsequence of the whole.
pub(crate) proof fn lemma_subseq_extend(m: Seq<char>, t: Seq<char>)
    requires
        t.len() > 0,
        is_subseq(m, t.drop_first()),
    ensures
        is_subseq(m, t),
    decreases t.len(), 0int,
{
    if m.len() > 0 && t[0] == m[0] {
        lemma_subseq_drop_needle(m, t.drop_first());
    }
}

/// Dropping the first needle character keeps a subsequence.
proof fn lemma_subseq_drop_needle(n: Seq<char>, t: Seq<char>)
    requires
        n.len() > 0,
        is_subseq(n, t),
    ensures
        is_subseq(n.drop_first(), t),
    decreases t.len(), 1int,
{
    if t.len() > 0 {
        if t[0] == n[0] {
            lemma_subseq_extend(n.drop_first(), t);
        } else {
            lemma_subseq_drop_needle(n, t.drop_first());
            lemma_subseq_extend(n.drop_first(), t);
        }
    }
}

/// A prefix is a subsequence.
proof fn lemma_prefix_subseq(h: Seq<char>, n: Seq<char>)
    requires
        has_prefix(h, n),
    ensures
        is_subseq(n, h),
    decreases n.len(),
{
    if n.len() > 0 {
        assert(h[0] == n[0]);
        assert(h.drop_first().subrange(0, n.len() - 1) =~= n.drop_first());
        lemma_prefix_subseq(h.drop_first(), n.drop_first());
    }
}

/// A contiguous occurrence is a subsequence.
proof fn lemma_occurs_subseq(h: Seq<char>, n: Seq<char>, i: int)
    requires
        occurs_at(h, n, i),
    ensures
        is_subseq(n, h),
    decreases i,
{
    if i == 0 {
        lemma_prefix_subseq(h, n);
    } else {
        assert(h.drop_first().subrange(i - 1, i - 1 + n.len()) =~= h.subrange(i, i + n.len()));
        lemma_occurs_subseq(h.drop_first(), n, i - 1);
        lemma_subseq_extend(n, h);
    }
}

/// A substring is a subsequence.
proof fn lemma_contains_subseq(h: Seq<char>, n: Seq<char>)
    requires
        contains(h, n),
    ensures
        is_subseq(n, h),
{
    crate::text::lemma_find_from(h, n, 0);
    lemma_occurs_subseq(h, n, find(h, n)->0);
}

/// Counting contained terms gives a number between zero and the number of terms.
proof fn lemma_count_contained_bounds(terms: Seq<Seq<char>>, s: Seq<char>)
    ensures
        0 <= count_contained(terms, s) <= terms.len(),
    decreases terms.len(),
{
    if terms.len() > 0 {
        lemma_count_contained_bounds(terms.drop_last(), s);
    }
}

/// A file whose name equals the query, ignoring case, scores 10000.
pub proof fn law_exact_name_scores_top(query: Seq<char>, name: Seq<char>, path: Seq<char>, ext: Seq<char>)
    requires
        lowercase(name) == lowercase(query),
    ensures
        fuzzy_score_of(query, name, path, ext) == 10000,
{
}

/// A one-word query that is a subsequence of neither the file's name nor
/// its path (ignoring case) scores 0: the file does not match.
pub proof fn law_unmatched_word_scores_zero(query: Seq<char>, name: Seq<char>, path: Seq<char>, ext: Seq<char>)
    requires
        split_whitespace(lowercase(query)).len() == 1,
        !is_subseq(lowercase(query), lowercase(name)),
        !is_subseq(lowercase(query), lowercase(path)),
    ensures
        fuzzy_score_of(query, name, path, ext) == 0,
{
    let ql = lowercase(query);
    let nl = lowercase(name);
    let pl = lowercase(path);
    if nl == ql {
        assert(nl.subrange(0, ql.len() as int) =~= ql);
        lemma_prefix_subseq(nl, ql);
    }
    if has_prefix(nl, ql) {
        lemma_prefix_subseq(nl, ql);
    }
    if find(nl, ql) is Some {
        lemma_contains_subseq(nl, ql);
    }
    if contains(pl, ql) {
        lemma_contains_subseq(pl, ql);
    }
    assert(name_match_score(ql, nl, pl) == 0);
}

/// A query of several words scores 0 when fewer of its words occur in the
/// name and in the path (counted separately) than it has words, unless the
/// name is the query itself.
pub proof fn law_scattered_words_score_zero(query: Seq<char>, name: Seq<char>, path: Seq<char>, ext: Seq<char>)
    requires
        lowercase(name) != lowercase(query),
        split_whitespace(lowercase(query)).len() > 1,
        count_contained(split_whitespace(lowercase(query)), lowercase(name)) + count_contained(
            split_whitespace(lowercase(query)),
            lowercase(path),
        ) < split_whitespace(lowercase(query)).len(),
    ensures
        fuzzy_score_of(query, name, path, ext) == 0,
{
    let ql = lowercase(query);
    let nl = lowercase(name);
    let pl = lowercase(path);
    lemma_count_contained_bounds(split_whitespace(ql), nl);
    lemma_count_contained_bounds(split_whitespace(ql), pl);
}


/// A subsequence of the first sequence, which is one of the second, is one
/// of the second.
proof fn lemma_subseq_trans(a: Seq<char>, b: Seq<char>, c: Seq<char>)
    requires
        is_subseq(a, b),
        is_subseq(b, c),
    ensures
        is_subseq(a, c),
    decreases c.len(),
{
    if a.len() == 0 {
    } else if c.len() == 0 {
    } else if b.len() == 0 {
    } else if c[0] == b[0] {
        if a[0] == b[0] {
            lemma_subseq_trans(a.drop_first(), b.drop_first(), c.drop_first());
        } else {
            lemma_subseq_trans(a, b.drop_first(), c.drop_first());
            lemma_subseq_extend(a, c);
        }
    } else {
        lemma_subseq_trans(a, b, c.drop_first());
        lemma_subseq_extend(a, c);
    }
}

/// Text put before the haystack keeps a subsequence.
proof fn lemma_subseq_prepend(n: Seq<char>, t: Seq<char>, h: Seq<char>)
    requires
        is_subseq(n, h),
    ensures
        is_subseq(n, t + h),
    decreases t.len(),
{
    if t.len() > 0 {
        assert((t + h).drop_first() =~= t.drop_first() + h);
        lemma_subseq_prepend(n, t.drop_first(), h);
        lemma_subseq_extend(n, t + h);
    } else {
        assert(t + h =~= h);
    }
}

/// Text put after the haystack keeps a subsequence, and a subsequence is
/// no longer than its haystack.
proof fn lemma_subseq_append(n: Seq<char>, h: Seq<char>, t: Seq<char>)
    requires
        is_subseq(n, h),
    ensures
        is_subseq(n, h + t),
        n.len() <= h.len(),
    decreases h.len(),
{
    if n.len() > 0 {
        assert((h + t)[0] == h[0]);
        assert((h + t).drop_first() =~= h.drop_first() + t);
        if h[0] == n[0] {
            lemma_subseq_append(n.drop_first(), h.drop_first(), t);
        } else {
            lemma_subseq_append(n, h.drop_first(), t);
        }
    }
}

/// Being a subsequence is reflexive and transitive, survives putting text
/// before or after the haystack, and the needle is no longer than the
/// haystack.
pub proof fn law_subsequence(s: Seq<char>, a: Seq<char>, b: Seq<char>, c: Seq<char>, t: Seq<char>)
    ensures
        is_subseq(s, s),
        is_subseq(a, b) && is_subseq(b, c) ==> is_subseq(a, c),
        is_subseq(a, b) ==> is_subseq(a, t + b) && is_subseq(a, b + t) && a.len() <= b.len(),
{
    assert(s.subrange(0, s.len() as int) =~= s);
    lemma_prefix_subseq(s, s);
    if is_subseq(a, b) {
        lemma_subseq_prepend(a, t, b);
        lemma_subseq_append(a, b, t);
        if is_subseq(b, c) {
            lemma_subseq_trans(a, b, c);
        }
    }
}


/// The query and the extension count only through their lowercase forms:
/// queries and extensions equal but for case give the same score, and are
/// in range together.
pub proof fn law_case_insensitive_query(
    q1: Seq<char>,
    q2: Seq<char>,
    name: Seq<char>,
    path: Seq<char>,
    e1: Seq<char>,
    e2: Seq<char>,
)
    requires
        lowercase(q1) == lowercase(q2),
        lowercase(e1) == lowercase(e2),
    ensures
        fuzzy_in_range(q1, name, path, e1) == fuzzy_in_range(q2, name, path, e2),
        fuzzy_score_of(q1, name, path, e1) == fuzzy_score_of(q2, name, path, e2),
{
}


/// The penalties and bonuses every scored file gets: 50 per `/` in the
/// path, 5 per byte of the name, 2 per byte of the path; 400 inside a
/// `/projects/` or `/src/` folder, 250 inside `/desktop/`, `/documents/`
/// or `/downloads/`, 150 for a common code, document or media extension.
pub open spec fn adjustments(name: Seq<char>, path: Seq<char>, ext: Seq<char>) -> int {
    let pl = lowercase(path);
    -(count_char(path, '/') * 50) - utf8_len(name) * 5 - utf8_len(path) * 2 + (if contains(pl, "/projects/"@)
        || contains(pl, "/src/"@) {
        400int
    } else {
        0
    }) + (if contains(pl, "/desktop/"@) || contains(pl, "/documents/"@) || contains(pl, "/downloads/"@) {
        250int
    } else {
        0
    }) + (if important_ext(lowercase(ext)) {
        150int
    } else {
        0
    })
}

/// A query of several words, not the file's name: when every word occurs
/// in the name the score is the name-match score plus 2000; when not all
/// do, but the words found in the name and those found in the path
/// (counted separately) are at least as many as the words, the score is
/// the name-match score plus 1000 and 300 per word found in the name; in
/// both cases with the usual penalties and bonuses.  So a file whose path
/// holds every word is scored, not dropped.
pub proof fn law_multi_word_scores(query: Seq<char>, name: Seq<char>, path: Seq<char>, ext: Seq<char>)
    requires
        lowercase(name) != lowercase(query),
        split_whitespace(lowercase(query)).len() > 1,
    ensures
        ({
            let terms = split_whitespace(lowercase(query));
            let nm = count_contained(terms, lowercase(name));
            let pm = count_contained(terms, lowercase(path));
            let base = name_match_score(lowercase(query), lowercase(name), lowercase(path));
            &&& nm == terms.len() ==> fuzzy_score_of(query, name, path, ext) == base + 2000 + adjustments(
                name,
                path,
                ext,
            )
            &&& (nm < terms.len() && nm + pm >= terms.len()) ==> fuzzy_score_of(query, name, path, ext) == base
                + 1000 + 300 * nm + adjustments(name, path, ext)
            &&& nm + pm < terms.len() ==> fuzzy_score_of(query, name, path, ext) == 0
        }),
{
    let terms = split_whitespace(lowercase(query));
    lemma_count_contained_bounds(terms, lowercase(name));
    lemma_count_contained_bounds(terms, lowercase(path));
}


/// The name-match part of a score, for the lowercase query `ql`, name `nl`
/// and path `pl`: 5000 when the name starts with the query; 3000 or 1500
/// (at or inside a word) when it holds it elsewhere; 800 plus the
/// clustering bonus when the query is only a subsequence of the name; 400
/// when only the path holds it; 100 when it is only a subsequence of the
/// path; 0 otherwise.  A one-word query that is not the name scores that
/// plus the usual penalties and bonuses, or 0 when it matched nothing.
pub proof fn law_name_match_tiers(query: Seq<char>, name: Seq<char>, path: Seq<char>, ext: Seq<char>)
    ensures
        ({
            let ql = lowercase(query);
            let nl = lowercase(name);
            let pl = lowercase(path);
            let base = name_match_score(ql, nl, pl);
            &&& has_prefix(nl, ql) ==> base == 5000
            &&& (!has_prefix(nl, ql) && contains(nl, ql)) ==> (base == 3000 || base == 1500)
            &&& (!contains(nl, ql) && is_subseq(ql, nl)) ==> base == 800 + clustering_score(ql, nl)
            &&& (!is_subseq(ql, nl) && contains(pl, ql)) ==> base == 400
            &&& (!is_subseq(ql, nl) && !contains(pl, ql) && is_subseq(ql, pl)) ==> base == 100
            &&& (!is_subseq(ql, nl) && !is_subseq(ql, pl)) ==> base == 0
            &&& (nl != ql && split_whitespace(ql).len() == 1) ==> fuzzy_score_of(query, name, path, ext) == (if base
                == 0 {
                0
            } else {
                base + adjustments(name, path, ext)
            })
        }),
{
    let ql = lowercase(query);
    let nl = lowercase(name);
    let pl = lowercase(path);
    crate::text::lemma_find_from(nl, ql, 0);
    crate::text::lemma_find_from(pl, ql, 0);
    if has_prefix(nl, ql) {
        lemma_prefix_subseq(nl, ql);
    }
    if contains(nl, ql) {
        lemma_contains_subseq(nl, ql);
    }
    if contains(pl, ql) {
        lemma_contains_subseq(pl, ql);
    }
}

} // verus!
