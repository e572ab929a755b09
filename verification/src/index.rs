//! The file index's query side: turning a query into search terms and
//! database patterns, scoring the rows the database returns, and ranking
//! the candidates.
use vstd::prelude::*;
use crate::desktop::{opt_view, or_empty};
use crate::paths::{collect_existing, collect_flagged, existence_of, extension_of, file_extension, holds};
use crate::fuzzy::{fuzzy_in_range, fuzzy_score_of, try_fuzzy_score};
use crate::order::{insert_stable, lemma_insert_at, lemma_sort_stable, sort_stable, sorted_by, total_preorder};
use crate::search::{at_most, ResultView, SearchResult};
use crate::text::{
    byte_len, char_is_alphanumeric, has_prefix, chars_of, eq_chars, is_alphanumeric, lower_chars, lowercase,
    split_whitespace, split_whitespace_chars, string_of, trim, trim_chars, utf8_len,
};

verus! {

/// The alphanumeric characters of `w`, in order.
pub open spec fn alnum_only(w: Seq<char>) -> Seq<char>
    decreases w.len(),
{
    if w.len() == 0 {
        seq![]
    } else {
        alnum_only(w.drop_last()) + if is_alphanumeric(w.last()) {
            seq![w.last()]
        } else {
            seq![]
        }
    }
}

/// The words reduced to their alphanumeric characters, empty results dropped.
pub open spec fn sanitized(words: Seq<Seq<char>>) -> Seq<Seq<char>>
    decreases words.len(),
{
    if words.len() == 0 {
        seq![]
    } else {
        let w = alnum_only(words.last());
        sanitized(words.drop_last()) + if w.len() > 0 {
            seq![w]
        } else {
            seq![]
        }
    }
}

/// The search terms of a query: none for a query that is only whitespace,
/// else the words of the lowercased trimmed query reduced to their
/// alphanumeric characters, empty ones dropped.
pub open spec fn terms_of(query: Seq<char>) -> Seq<Seq<char>> {
    let q = trim(query);
    if q.len() == 0 {
        seq![]
    } else {
        sanitized(split_whitespace(lowercase(q)))
    }
}

/// Every character kept is alphanumeric.
proof fn lemma_alnum_only(w: Seq<char>)
    ensures
        forall|i: int| 0 <= i < alnum_only(w).len() ==> is_alphanumeric(#[trigger] alnum_only(w)[i]),
    decreases w.len(),
{
    if w.len() > 0 {
        lemma_alnum_only(w.drop_last());
        let a = alnum_only(w.drop_last());
        assert forall|i: int| 0 <= i < alnum_only(w).len() implies is_alphanumeric(#[trigger] alnum_only(w)[i]) by {
            if i < a.len() {
                assert(alnum_only(w)[i] == a[i]);
            }
        }
    }
}

/// Sanitized words are non-empty and entirely alphanumeric.
proof fn lemma_sanitized(words: Seq<Seq<char>>)
    ensures
        forall|k: int| 0 <= k < sanitized(words).len() ==> (#[trigger] sanitized(words)[k]).len() > 0
            && forall|i: int| 0 <= i < sanitized(words)[k].len() ==> is_alphanumeric(#[trigger] sanitized(words)[k][i]),
    decreases words.len(),
{
    if words.len() > 0 {
        lemma_sanitized(words.drop_last());
        lemma_alnum_only(words.last());
        let a = sanitized(words.drop_last());
        assert forall|k: int| 0 <= k < sanitized(words).len() implies (#[trigger] sanitized(words)[k]).len() > 0
            && forall|i: int| 0 <= i < sanitized(words)[k].len() ==> is_alphanumeric(#[trigger] sanitized(words)[k][i]) by {
            if k < a.len() {
                assert(sanitized(words)[k] == a[k]);
            }
        }
    }
}

/// The search terms are safe to hand to the full-text index: each is
/// non-empty and made of alphanumeric characters only.
pub proof fn law_search_terms_sanitized(query: Seq<char>)
    ensures
        forall|k: int| 0 <= k < terms_of(query).len() ==> (#[trigger] terms_of(query)[k]).len() > 0
            && forall|i: int| 0 <= i < terms_of(query)[k].len() ==> is_alphanumeric(#[trigger] terms_of(query)[k][i]),
{
    lemma_sanitized(split_whitespace(lowercase(trim(query))));
}

/// Keeps the alphanumeric characters of a word.
fn alnum_only_exec(w: &Vec<char>) -> (r: Vec<char>)
    ensures
        r@ == alnum_only(w@),
{
    let mut r: Vec<char> = Vec::new();
    let mut i: usize = 0;
    while i < w.len()
        invariant
            i <= w.len(),
            r@ == alnum_only(w@.take(i as int)),
        decreases w.len() - i,
    {
        assert(w@.take(i + 1).drop_last() =~= w@.take(i as int));
        let ghost before = r@;
        if char_is_alphanumeric(w[i]) {
            r.push(w[i]);
            assert(r@ =~= before + seq![w@[i as int]]);
        } else {
            assert(before + Seq::<char>::empty() =~= before);
        }
        i = i + 1;
    }
    assert(w@.take(w@.len() as int) =~= w@);
    r
}

/// The search terms of a query (see `terms_of`).
pub fn search_terms(query: &str) -> (r: Vec<String>)
    ensures
        r.deep_view() == terms_of(query@),
{
    let qc = chars_of(query);
    let q = trim_chars(&qc);
    if q.len() == 0 {
        return Vec::new();
    }
    let qs = string_of(q.as_slice());
    let lower = lower_chars(qs.as_str());
    let words = split_whitespace_chars(&lower);
    let mut out: Vec<String> = Vec::new();
    let mut i: usize = 0;
    while i < words.len()
        invariant
            i <= words.len(),
            words.deep_view() == split_whitespace(lowercase(trim(query@))),
            out.deep_view() == sanitized(words.deep_view().take(i as int)),
        decreases words.len() - i,
    {
        assert(words.deep_view().take(i + 1).drop_last() =~= words.deep_view().take(i as int));
        assert(words.deep_view()[i as int] =~= words[i as int]@);
        let w = alnum_only_exec(&words[i]);
        let ghost before = out.deep_view();
        if w.len() > 0 {
            let ws = string_of(w.as_slice());
            out.push(ws);
            assert(out.deep_view() =~= before + seq![w@]);
        } else {
            assert(before + Seq::<Seq<char>>::empty() =~= before);
        }
        i = i + 1;
    }
    assert(words.deep_view().take(words.len() as int) =~= words.deep_view());
    out
}

/// The pieces joined with `sep` between them.
pub open spec fn join(pieces: Seq<Seq<char>>, sep: Seq<char>) -> Seq<char>
    decreases pieces.len(),
{
    if pieces.len() == 0 {
        seq![]
    } else if pieces.len() == 1 {
        pieces[0]
    } else {
        join(pieces.drop_last(), sep) + sep + pieces.last()
    }
}

/// Joins strings with a separator.
fn join_exec(pieces: &Vec<String>, sep: &str) -> (r: String)
    ensures
        r@ == join(pieces.deep_view(), sep@),
{
    let mut out: Vec<char> = Vec::new();
    let sepc = chars_of(sep);
    let mut i: usize = 0;
    while i < pieces.len()
        invariant
            i <= pieces.len(),
            sepc@ == sep@,
            out@ == join(pieces.deep_view().take(i as int), sep@),
        decreases pieces.len() - i,
    {
        let p = chars_of(pieces[i].as_str());
        let ghost before = out@;
        assert(pieces.deep_view().take(i + 1).drop_last() =~= pieces.deep_view().take(i as int));
        assert(pieces.deep_view()[i as int] == p@);
        if i > 0 {
            let mut k: usize = 0;
            while k < sepc.len()
                invariant
                    k <= sepc.len(),
                    out@ == before + sepc@.take(k as int),
                decreases sepc.len() - k,
            {
                out.push(sepc[k]);
                assert(before + sepc@.take(k + 1) =~= (before + sepc@.take(k as int)).push(sepc@[k as int]));
                k = k + 1;
            }
            assert(sepc@.take(sepc@.len() as int) =~= sepc@);
        }
        let ghost mid = out@;
        let mut k: usize = 0;
        while k < p.len()
            invariant
                k <= p.len(),
                out@ == mid + p@.take(k as int),
            decreases p.len() - k,
        {
            out.push(p[k]);
            assert(mid + p@.take(k + 1) =~= (mid + p@.take(k as int)).push(p@[k as int]));
            k = k + 1;
        }
        assert(p@.take(p@.len() as int) =~= p@);
        if i == 0 {
            assert(before =~= Seq::<char>::empty());
            assert(out@ =~= p@);
            assert(pieces.deep_view().take(1) =~= seq![p@]);
        }
        i = i + 1;
    }
    assert(pieces.deep_view().take(pieces.len() as int) =~= pieces.deep_view());
    string_of(out.as_slice())
}

/// The full-text query of the terms: each term as a prefix query, all required.
pub open spec fn fts_query_of(terms: Seq<Seq<char>>) -> Seq<char> {
    join(terms.map_values(|t: Seq<char>| t + "*"@), " AND "@)
}

/// The full-text query, e.g. `spot* AND lib*`.
pub fn fts_query(terms: &Vec<String>) -> (r: String)
    ensures
        r@ == fts_query_of(terms.deep_view()),
{
    let mut starred: Vec<String> = Vec::new();
    let mut i: usize = 0;
    while i < terms.len()
        invariant
            i <= terms.len(),
            starred.deep_view() =~= terms.deep_view().take(i as int).map_values(
                |t: Seq<char>| t + "*"@,
            ),
        decreases terms.len() - i,
    {
        let mut t = chars_of(terms[i].as_str());
        let ghost tv = t@;
        proof {
            reveal_strlit("*");
        }
        t.push('*');
        assert(t@ =~= tv + "*"@);
        let ghost before = starred.deep_view();
        starred.push(string_of(t.as_slice()));
        assert(starred.deep_view() =~= before.push(tv + "*"@));
        assert(terms.deep_view().take(i + 1).map_values(|t: Seq<char>| t + "*"@) =~= terms.deep_view().take(
            i as int,
        ).map_values(|t: Seq<char>| t + "*"@).push(tv + "*"@));
        i = i + 1;
    }
    assert(terms.deep_view().take(terms.len() as int) =~= terms.deep_view());
    join_exec(&starred, " AND ")
}

/// The substring pattern of the terms: `%term1%term2%`.
pub open spec fn like_pattern_of(terms: Seq<Seq<char>>) -> Seq<char> {
    "%"@ + join(terms, "%"@) + "%"@
}

/// The substring pattern used when the full-text query finds too little.
pub fn like_pattern(terms: &Vec<String>) -> (r: String)
    ensures
        r@ == like_pattern_of(terms.deep_view()),
{
    let inner = join_exec(terms, "%");
    let mut v = chars_of("%");
    let ic = chars_of(inner.as_str());
    let mut k: usize = 0;
    let ghost start = v@;
    while k < ic.len()
        invariant
            k <= ic.len(),
            v@ == start + ic@.take(k as int),
        decreases ic.len() - k,
    {
        v.push(ic[k]);
        assert(start + ic@.take(k + 1) =~= (start + ic@.take(k as int)).push(ic@[k as int]));
        k = k + 1;
    }
    assert(ic@.take(ic@.len() as int) =~= ic@);
    let ghost mid = v@;
    proof {
        reveal_strlit("%");
    }
    v.push('%');
    assert(v@ =~= mid + "%"@);
    string_of(v.as_slice())
}

/// Whether the substring query runs: fewer than 150 candidates so far.
pub fn needs_like_fallback(candidates: usize) -> (b: bool)
    ensures
        b == (candidates < 150),
{
    candidates < 150
}

/// A row of the file index: file name, full path and extension.
#[derive(Clone, Debug)]
pub struct FileRow {
    pub name: String,
    pub path: String,
    pub extension: String,
}

/// The mathematical value of a `FileRow`.
pub struct RowView {
    pub name: Seq<char>,
    pub path: Seq<char>,
    pub extension: Seq<char>,
}

impl View for FileRow {
    type V = RowView;

    open spec fn view(&self) -> RowView {
        RowView { name: self.name@, path: self.path@, extension: self.extension@ }
    }
}

impl DeepView for FileRow {
    type V = RowView;

    open spec fn deep_view(&self) -> RowView {
        self@
    }
}

/// A file result with its score.
#[derive(Clone, Debug)]
pub struct Candidate {
    pub result: SearchResult,
    pub score: i32,
}

/// The mathematical value of a `Candidate`.
pub struct CandView {
    pub result: ResultView,
    pub score: int,
}

impl View for Candidate {
    type V = CandView;

    open spec fn view(&self) -> CandView {
        CandView { result: self.result@, score: self.score as int }
    }
}

impl DeepView for Candidate {
    type V = CandView;

    open spec fn deep_view(&self) -> CandView {
        self@
    }
}

/// The result shown for an indexed file: its name and path.
pub open spec fn file_result(r: RowView) -> ResultView {
    ResultView {
        name: r.name,
        path: Some(r.path),
        icon_data: None,
        is_app: false,
        command: None,
        subtitle: None,
    }
}

/// The paths taken so far and the candidates gathered.
pub struct Gathered {
    pub seen: Seq<Seq<char>>,
    pub cands: Seq<CandView>,
}

/// What one row does: with `skip_seen`, a row whose path was taken is
/// passed over; so is a row whose score cannot be computed within `i32`;
/// otherwise it is scored against the query `q`, and a positive score
/// takes its path and adds it as a candidate.
pub open spec fn gather_row(q: Seq<char>, row: RowView, skip_seen: bool, g: Gathered) -> Gathered {
    if skip_seen && g.seen.contains(row.path) {
        g
    } else if !fuzzy_in_range(q, row.name, row.path, row.extension) {
        g
    } else {
        let sc = fuzzy_score_of(q, row.name, row.path, row.extension);
        if sc > 0 {
            Gathered {
                seen: g.seen.push(row.path),
                cands: g.cands.push(CandView { result: file_result(row), score: sc }),
            }
        } else {
            g
        }
    }
}

/// The rows taken in order, starting from `g`.
pub open spec fn gather_rows(q: Seq<char>, rows: Seq<RowView>, skip_seen: bool, g: Gathered) -> Gathered
    decreases rows.len(),
{
    if rows.len() == 0 {
        g
    } else {
        gather_row(q, rows.last(), skip_seen, gather_rows(q, rows.drop_last(), skip_seen, g))
    }
}

/// What gathering adds: candidates with positive scores, each recording
/// its path, in step with the paths taken; and when rows with a path
/// already taken are passed over, no path is taken twice.
pub proof fn law_gather_adds_scored_paths(q: Seq<char>, rows: Seq<RowView>, skip_seen: bool, g: Gathered)
    ensures
        ({
            let h = gather_rows(q, rows, skip_seen, g);
            &&& h.cands.len() - g.cands.len() == h.seen.len() - g.seen.len() >= 0
            &&& h.cands.take(g.cands.len() as int) == g.cands
            &&& h.seen.take(g.seen.len() as int) == g.seen
            &&& forall|i: int| g.cands.len() <= i < h.cands.len() ==> {
                &&& (#[trigger] h.cands[i]).score > 0
                &&& !h.cands[i].result.is_app
                &&& h.cands[i].result.path == Some(h.seen[i - g.cands.len() + g.seen.len()])
            }
            &&& (skip_seen && g.seen.no_duplicates()) ==> h.seen.no_duplicates()
        }),
    decreases rows.len(),
{
    if rows.len() > 0 {
        law_gather_adds_scored_paths(q, rows.drop_last(), skip_seen, g);
        let h0 = gather_rows(q, rows.drop_last(), skip_seen, g);
        let row = rows.last();
        let h = gather_row(q, row, skip_seen, h0);
        if h != h0 {
            assert(h.cands.drop_last() == h0.cands);
            assert(h.seen.drop_last() == h0.seen);
            assert(h.cands.take(g.cands.len() as int) =~= h0.cands.take(g.cands.len() as int));
            assert(h.seen.take(g.seen.len() as int) =~= h0.seen.take(g.seen.len() as int));
            assert forall|i: int| g.cands.len() <= i < h.cands.len() implies {
                &&& (#[trigger] h.cands[i]).score > 0
                &&& !h.cands[i].result.is_app
                &&& h.cands[i].result.path == Some(h.seen[i - g.cands.len() + g.seen.len()])
            } by {
                if i < h0.cands.len() {
                    assert(h.cands[i] == h0.cands[i]);
                    assert(h.seen[i - g.cands.len() + g.seen.len()] == h0.seen[i - g.cands.len() + g.seen.len()]);
                }
            }
            if skip_seen && g.seen.no_duplicates() {
                assert(!h0.seen.contains(row.path));
                assert forall|a: int, b: int| 0 <= a < h.seen.len() && 0 <= b < h.seen.len() && a != b
                    implies h.seen[a] != h.seen[b] by {
                    if a < h0.seen.len() && b < h0.seen.len() {
                        assert(h.seen[a] == h0.seen[a] && h.seen[b] == h0.seen[b]);
                    } else if a < h0.seen.len() {
                        assert(h.seen[a] == h0.seen[a]);
                    } else {
                        assert(h.seen[b] == h0.seen[b]);
                    }
                }
            }
        }
    } else {
        assert(g.cands.take(g.cands.len() as int) =~= g.cands);
        assert(g.seen.take(g.seen.len() as int) =~= g.seen);
    }
}

/// Candidate `c` is row `r` with its fuzzy score for the query `q`: the
/// row's name and path, a score computable within `i32`, and exactly that
/// score.
pub open spec fn scored_row(c: CandView, q: Seq<char>, r: RowView) -> bool {
    &&& c.result.name == r.name
    &&& c.result.path == Some(r.path)
    &&& fuzzy_in_range(q, r.name, r.path, r.extension)
    &&& c.score == fuzzy_score_of(q, r.name, r.path, r.extension)
}

/// Each gathered candidate is one of the rows with exactly its score.
proof fn lemma_gather_sound(q: Seq<char>, rows: Seq<RowView>, skip_seen: bool, g: Gathered)
    ensures
        gather_rows(q, rows, skip_seen, g).cands.len() >= g.cands.len(),
        forall|i: int| g.cands.len() <= i < gather_rows(q, rows, skip_seen, g).cands.len() ==> exists|k: int|
            0 <= k < rows.len() && scored_row(#[trigger] gather_rows(q, rows, skip_seen, g).cands[i], q, rows[k]),
    decreases rows.len(),
{
    if rows.len() > 0 {
        let p = rows.drop_last();
        lemma_gather_sound(q, p, skip_seen, g);
        let h0 = gather_rows(q, p, skip_seen, g);
        let row = rows.last();
        let h = gather_rows(q, rows, skip_seen, g);
        assert(h == gather_row(q, row, skip_seen, h0));
        let n = rows.len() - 1;
        assert(rows[n] == row);
        assert forall|i: int| g.cands.len() <= i < h.cands.len() implies exists|k: int|
            0 <= k < rows.len() && scored_row(#[trigger] h.cands[i], q, rows[k]) by {
            if i < h0.cands.len() {
                assert(h.cands[i] == h0.cands[i]);
                let k = choose|k: int| 0 <= k < p.len() && scored_row(#[trigger] h0.cands[i], q, p[k]);
                assert(rows[k] == p[k]);
            } else {
                assert(scored_row(h.cands[i], q, rows[n]));
            }
        }
    }
}

/// When taken rows are not passed over, every row with a positive
/// computable score is gathered with that score.
proof fn lemma_gather_complete(q: Seq<char>, rows: Seq<RowView>, g: Gathered)
    ensures
        gather_rows(q, rows, false, g).cands.len() >= g.cands.len(),
        forall|k: int|
            0 <= k < rows.len() && fuzzy_in_range(q, rows[k].name, rows[k].path, rows[k].extension)
                && fuzzy_score_of(q, rows[k].name, rows[k].path, rows[k].extension) > 0 ==> exists|i: int|
                g.cands.len() <= i < gather_rows(q, rows, false, g).cands.len() && scored_row(
                    #[trigger] gather_rows(q, rows, false, g).cands[i],
                    q,
                    #[trigger] rows[k],
                ),
    decreases rows.len(),
{
    if rows.len() > 0 {
        let p = rows.drop_last();
        lemma_gather_complete(q, p, g);
        let h0 = gather_rows(q, p, false, g);
        let row = rows.last();
        let h = gather_rows(q, rows, false, g);
        assert(h == gather_row(q, row, false, h0));
        let n = rows.len() - 1;
        assert(rows[n] == row);
        assert forall|k: int|
            0 <= k < rows.len() && fuzzy_in_range(q, rows[k].name, rows[k].path, rows[k].extension)
                && fuzzy_score_of(q, rows[k].name, rows[k].path, rows[k].extension) > 0 implies exists|i: int|
                g.cands.len() <= i < h.cands.len() && scored_row(#[trigger] h.cands[i], q, #[trigger] rows[k]) by {
            if k < n {
                assert(rows[k] == p[k]);
                let i = choose|i: int| g.cands.len() <= i < h0.cands.len() && scored_row(
                    #[trigger] h0.cands[i],
                    q,
                    #[trigger] p[k],
                );
                assert(h.cands[i] == h0.cands[i]);
            } else {
                assert(scored_row(h.cands[h0.cands.len() as int], q, rows[k]));
            }
        }
    }
}

/// Each candidate gathered is one of the rows, carrying exactly that row's
/// fuzzy score for the query (so the ranking goes by how well each file
/// matched); and when taken rows are not passed over, every row whose
/// score is positive (and computable) is gathered with that score.
pub proof fn law_gather_scores_rows(q: Seq<char>, rows: Seq<RowView>, skip_seen: bool, g: Gathered)
    ensures
        forall|i: int| g.cands.len() <= i < gather_rows(q, rows, skip_seen, g).cands.len() ==> exists|k: int|
            0 <= k < rows.len() && scored_row(#[trigger] gather_rows(q, rows, skip_seen, g).cands[i], q, rows[k]),
        !skip_seen ==> forall|k: int|
            0 <= k < rows.len() && fuzzy_in_range(q, rows[k].name, rows[k].path, rows[k].extension)
                && fuzzy_score_of(q, rows[k].name, rows[k].path, rows[k].extension) > 0 ==> exists|i: int|
                g.cands.len() <= i < gather_rows(q, rows, skip_seen, g).cands.len() && scored_row(
                    #[trigger] gather_rows(q, rows, skip_seen, g).cands[i],
                    q,
                    #[trigger] rows[k],
                ),
{
    lemma_gather_sound(q, rows, skip_seen, g);
    if !skip_seen {
        lemma_gather_complete(q, rows, g);
    }
}

/// Scores rows the index returned for `query` (scored against the trimmed
/// query) and adds those with a positive score; with `skip_seen`, rows
/// whose path was already taken are passed over, and so are rows whose
/// score would overflow `i32`.
pub fn gather_candidates(
    query: &str,
    rows: Vec<FileRow>,
    skip_seen: bool,
    seen: &mut Vec<String>,
    cands: &mut Vec<Candidate>,
)
    ensures
        gather_rows(
            trim(query@),
            rows.deep_view(),
            skip_seen,
            Gathered { seen: old(seen).deep_view(), cands: old(cands).deep_view() },
        ) == (Gathered { seen: final(seen).deep_view(), cands: final(cands).deep_view() }),
{
    let ghost all = rows.deep_view();
    let ghost g0 = Gathered { seen: seen.deep_view(), cands: cands.deep_view() };
    let qc = chars_of(query);
    let qt = trim_chars(&qc);
    let q = string_of(qt.as_slice());
    let mut rest = rows;
    let n = rest.len();
    let mut i: usize = 0;
    assert(rest.deep_view() =~= all.skip(0));
    assert(all.take(0) =~= Seq::<RowView>::empty());
    while i < n
        invariant
            n == all.len(),
            i <= n,
            q@ == trim(query@),
            all == rows.deep_view(),
            g0 == (Gathered { seen: old(seen).deep_view(), cands: old(cands).deep_view() }),
            rest.deep_view() =~= all.skip(i as int),
            gather_rows(q@, all.take(i as int), skip_seen, g0) == (Gathered {
                seen: seen.deep_view(),
                cands: cands.deep_view(),
            }),
        decreases n - i,
    {
        let ghost before = rest.deep_view();
        let ghost old_rest = rest@;
        assert(before.len() == n - i);
        let row = rest.remove(0);
        assert(row@ == all[i as int]) by {
            assert(before[0] == all[i as int]);
        }
        assert forall|k: int| 0 <= k < rest.len() implies #[trigger] rest.deep_view()[k] == all.skip(
            i + 1,
        )[k] by {
            assert(rest@[k] == old_rest[k + 1]);
            assert(before[k + 1] == all[i + 1 + k]);
        }
        assert(all.take(i + 1).drop_last() =~= all.take(i as int));
        let ghost g = Gathered { seen: seen.deep_view(), cands: cands.deep_view() };
        let mut skip = false;
        if skip_seen {
            let path = chars_of(row.path.as_str());
            let mut k: usize = 0;
            while k < seen.len()
                invariant
                    k <= seen.len(),
                    path@ == row.path@,
                    skip <==> exists|j: int| 0 <= j < k && (#[trigger] seen.deep_view()[j]) == row.path@,
                decreases seen.len() - k,
            {
                let s = chars_of(seen[k].as_str());
                if eq_chars(&s, &path) {
                    skip = true;
                }
                assert(seen.deep_view()[k as int] == s@);
                k = k + 1;
            }
            assert(skip == seen.deep_view().contains(row.path@));
        }
        if !skip {
            match try_fuzzy_score(q.as_str(), row.name.as_str(), row.path.as_str(), row.extension.as_str()) {
                None => {},
                Some(sc) => {
                    if sc > 0 {
                        let ghost sv = seen.deep_view();
                        let ghost cv = cands.deep_view();
                        let ghost rv = row@;
                        seen.push(row.path.clone());
                        assert(seen.deep_view() =~= sv.push(rv.path));
                        let result = SearchResult {
                            name: row.name,
                            path: Some(row.path),
                            icon_data: None,
                            is_app: false,
                            command: None,
                            subtitle: None,
                        };
                        cands.push(Candidate { result, score: sc });
                        assert(cands.deep_view() =~= cv.push(
                            CandView { result: file_result(rv), score: sc as int },
                        ));
                    }
                },
            }
        }
        i = i + 1;
    }
    assert(all.take(n as int) =~= all);
}

/// `a` comes no later than `b` in lexicographic order of code points
/// (the order of `String`'s comparison, UTF-8 bytes comparing as code points do).
pub open spec fn lex_le(a: Seq<char>, b: Seq<char>) -> bool
    decreases a.len(),
{
    if a.len() == 0 {
        true
    } else if b.len() == 0 {
        false
    } else if a[0] < b[0] {
        true
    } else if a[0] > b[0] {
        false
    } else {
        lex_le(a.drop_first(), b.drop_first())
    }
}

/// Lexicographic order of two character sequences.
pub(crate) fn lex_le_exec(a: &Vec<char>, b: &Vec<char>) -> (r: bool)
    ensures
        r == lex_le(a@, b@),
{
    let mut i: usize = 0;
    assert(a@.skip(0) =~= a@);
    assert(b@.skip(0) =~= b@);
    while i < a.len() && i < b.len()
        invariant
            i <= a.len(),
            i <= b.len(),
            lex_le(a@, b@) == lex_le(a@.skip(i as int), b@.skip(i as int)),
        decreases a.len() - i,
    {
        assert(a@.skip(i as int)[0] == a@[i as int]);
        assert(b@.skip(i as int)[0] == b@[i as int]);
        if a[i] < b[i] {
            return true;
        }
        if a[i] > b[i] {
            return false;
        }
        assert(a@.skip(i as int).drop_first() =~= a@.skip(i + 1));
        assert(b@.skip(i as int).drop_first() =~= b@.skip(i + 1));
        i = i + 1;
    }
    i == a.len()
}

/// Candidate `a` may rank before `b`: a higher score, or the same score
/// and a shorter name (in UTF-8 bytes), or the same score and name length
/// and a name no later in lexicographic order.
pub open spec fn ranks_before() -> spec_fn(CandView, CandView) -> bool {
    |a: CandView, b: CandView|
        a.score > b.score || (a.score == b.score && (utf8_len(a.result.name) < utf8_len(
            b.result.name,
        ) || (utf8_len(a.result.name) == utf8_len(b.result.name) && lex_le(
            a.result.name,
            b.result.name,
        ))))
}

/// The ranked file results: the candidates sorted stably by rank, at most forty.
pub open spec fn ranked(cands: Seq<CandView>) -> Seq<ResultView> {
    at_most(sort_stable(cands, ranks_before()).map_values(|c: CandView| c.result), 40)
}

/// Whether candidate `a` may rank before `b`.
fn ranks_before_exec(a: &Candidate, b: &Candidate) -> (r: bool)
    ensures
        r == (ranks_before())(a@, b@),
{
    if a.score != b.score {
        return a.score > b.score;
    }
    let la = byte_len(a.result.name.as_str());
    let lb = byte_len(b.result.name.as_str());
    if la != lb {
        return la < lb;
    }
    let an = chars_of(a.result.name.as_str());
    let bn = chars_of(b.result.name.as_str());
    lex_le_exec(&an, &bn)
}

/// Inserts a candidate after every candidate that may rank before it.
fn insert_ranked(out: &mut Vec<Candidate>, x: Candidate)
    ensures
        final(out).deep_view() == insert_stable(old(out).deep_view(), x@, ranks_before()),
{
    let ghost s = out.deep_view();
    let mut j = out.len();
    while j > 0
        invariant
            j <= out.len(),
            s == out.deep_view(),
            forall|k: int| j <= k < s.len() ==> !(ranks_before())(#[trigger] s[k], x@),
        ensures
            j <= out.len(),
            forall|k: int| j <= k < s.len() ==> !(ranks_before())(#[trigger] s[k], x@),
            j > 0 ==> (ranks_before())(s[j - 1], x@),
        decreases j,
    {
        let b = ranks_before_exec(&out[j - 1], &x);
        assert(s[j - 1] == out@[j - 1]@);
        if b {
            break;
        }
        j = j - 1;
    }
    proof {
        lemma_insert_at(s, x@, ranks_before(), j as int);
    }
    let ghost xv = x@;
    out.insert(j, x);
    assert(out.deep_view() =~= s.insert(j as int, xv));
}

/// Ranks the candidates (score descending, then shorter names, then names
/// in order; ties keep their order) and returns the first forty results.
pub fn rank_candidates(cands: Vec<Candidate>) -> (r: Vec<SearchResult>)
    ensures
        r.deep_view() == ranked(cands.deep_view()),
{
    let ghost all = cands.deep_view();
    let mut rest = cands;
    let mut sorted: Vec<Candidate> = Vec::new();
    let n = rest.len();
    let mut i: usize = 0;
    assert(rest.deep_view() =~= all.skip(0));
    assert(all.take(0) =~= Seq::<CandView>::empty());
    while i < n
        invariant
            n == all.len(),
            i <= n,
            rest.deep_view() =~= all.skip(i as int),
            sorted.deep_view() == sort_stable(all.take(i as int), ranks_before()),
        decreases n - i,
    {
        let ghost before = rest.deep_view();
        let ghost old_rest = rest@;
        assert(before.len() == n - i);
        let c = rest.remove(0);
        assert(c@ == all[i as int]) by {
            assert(before[0] == all[i as int]);
        }
        assert forall|k: int| 0 <= k < rest.len() implies #[trigger] rest.deep_view()[k] == all.skip(
            i + 1,
        )[k] by {
            assert(rest@[k] == old_rest[k + 1]);
            assert(before[k + 1] == all[i + 1 + k]);
        }
        assert(all.take(i + 1).drop_last() =~= all.take(i as int));
        insert_ranked(&mut sorted, c);
        i = i + 1;
    }
    assert(all.take(n as int) =~= all);
    let ghost ordered = sorted.deep_view();
    let limit = if sorted.len() > 40 {
        40
    } else {
        sorted.len()
    };
    let mut out: Vec<SearchResult> = Vec::new();
    let mut k: usize = 0;
    assert(sorted.deep_view() =~= ordered.skip(0));
    while k < limit
        invariant
            k <= limit <= ordered.len(),
            sorted.deep_view() =~= ordered.skip(k as int),
            out.deep_view() =~= ordered.take(k as int).map_values(|c: CandView| c.result),
        decreases limit - k,
    {
        let ghost before = sorted.deep_view();
        let ghost old_sorted = sorted@;
        assert(before.len() == ordered.len() - k);
        assert(sorted.len() == before.len());
        let c = sorted.remove(0);
        assert(c@ == ordered[k as int]) by {
            assert(before[0] == ordered[k as int]);
        }
        assert forall|m: int| 0 <= m < sorted.len() implies #[trigger] sorted.deep_view()[m]
            == ordered.skip(k + 1)[m] by {
            assert(sorted@[m] == old_sorted[m + 1]);
            assert(before[m + 1] == ordered[k + 1 + m]);
        }
        let ghost ob = out.deep_view();
        out.push(c.result);
        assert(out.deep_view() =~= ob.push(ordered[k as int].result));
        assert(ordered.take(k + 1).map_values(|c: CandView| c.result) =~= ordered.take(
            k as int,
        ).map_values(|c: CandView| c.result).push(ordered[k as int].result));
        k = k + 1;
    }
    proof {
        let m = ordered.map_values(|c: CandView| c.result);
        if ordered.len() > 40 {
            assert(out.deep_view() =~= m.take(40));
        } else {
            assert(ordered.take(ordered.len() as int) =~= ordered);
            assert(out.deep_view() =~= m);
        }
    }
    out
}

/// Lexicographic order compares every pair one way or the other.
proof fn lemma_lex_total(a: Seq<char>, b: Seq<char>)
    ensures
        lex_le(a, b) || lex_le(b, a),
    decreases a.len(),
{
    if a.len() > 0 && b.len() > 0 && a[0] == b[0] {
        lemma_lex_total(a.drop_first(), b.drop_first());
    }
}

/// Lexicographic order is transitive.
proof fn lemma_lex_trans(a: Seq<char>, b: Seq<char>, c: Seq<char>)
    requires
        lex_le(a, b),
        lex_le(b, c),
    ensures
        lex_le(a, c),
    decreases a.len(),
{
    if a.len() > 0 && b.len() > 0 && c.len() > 0 && a[0] == b[0] && b[0] == c[0] {
        lemma_lex_trans(a.drop_first(), b.drop_first(), c.drop_first());
    }
}

/// The ranking order compares every pair of candidates and is transitive.
pub proof fn law_ranking_is_total_preorder()
    ensures
        total_preorder(ranks_before()),
{
    assert forall|a: CandView, b: CandView| #[trigger] (ranks_before())(a, b) || #[trigger] (
    ranks_before())(b, a) by {
        lemma_lex_total(a.result.name, b.result.name);
    }
    assert forall|a: CandView, b: CandView, c: CandView| #[trigger] (ranks_before())(a, b)
        && #[trigger] (ranks_before())(b, c) implies (ranks_before())(a, c) by {
        if a.score == b.score && b.score == c.score && utf8_len(a.result.name) == utf8_len(
            b.result.name,
        ) && utf8_len(b.result.name) == utf8_len(c.result.name) {
            lemma_lex_trans(a.result.name, b.result.name, c.result.name);
        }
    }
}

/// Ranked results come in rank order: each candidate sorted before a later
/// one may rank before it, and sorting keeps exactly the candidates.
pub proof fn law_ranking_sorted(cands: Seq<CandView>)
    ensures
        sorted_by(sort_stable(cands, ranks_before()), ranks_before()),
        sort_stable(cands, ranks_before()).to_multiset() == cands.to_multiset(),
{
    law_ranking_is_total_preorder();
    lemma_sort_stable(cands, ranks_before());
}

/// The walk descends into (and indexes) an entry: its name does not start
/// with a dot and is not an excluded directory name.
pub open spec fn walk_allows(file_name: Seq<char>, excluded_dirs: Seq<Seq<char>>) -> bool {
    !has_prefix(file_name, "."@) && !excluded_dirs.contains(file_name)
}

/// Whether the index walk takes an entry with this file name.
pub fn entry_allowed(file_name: &str, excluded_dirs: &Vec<String>) -> (b: bool)
    ensures
        b == walk_allows(file_name@, excluded_dirs.deep_view()),
{
    let n = chars_of(file_name);
    let dot = chars_of(".");
    if crate::text::starts_with(&n, &dot) {
        return false;
    }
    !holds(excluded_dirs, file_name)
}

/// The extension recorded for an indexed file: its extension, or empty.
pub open spec fn indexed_extension(file_name: Seq<char>) -> Seq<char> {
    or_empty(extension_of(file_name))
}

/// The extension recorded for an indexed file.
pub fn indexed_extension_of(file_name: &str) -> (r: String)
    ensures
        r@ == indexed_extension(file_name@),
{
    match file_extension(file_name) {
        Some(e) => e,
        None => String::new(),
    }
}

/// Whether a file's extension is excluded from the index.
pub fn extension_excluded(ext: &str, excluded_extensions: &Vec<String>) -> (b: bool)
    ensures
        b == excluded_extensions.deep_view().contains(ext@),
{
    holds(excluded_extensions, ext)
}

/// Each path, kept even when repeated.
pub open spec fn as_plain_candidates(paths: Seq<Seq<char>>) -> Seq<(Seq<char>, bool)> {
    paths.map_values(|p: Seq<char>| (p, false))
}

/// The directories to index: the configured paths that exist (`flags`),
/// or the home directory when none does.
pub open spec fn scan_dirs_of(paths: Seq<Seq<char>>, flags: Seq<bool>, home: Seq<char>) -> Seq<Seq<char>> {
    let kept = collect_existing(as_plain_candidates(paths), flags, false);
    if kept.len() == 0 {
        seq![home]
    } else {
        kept
    }
}

/// The directories to index, given the configured paths, the answers of
/// the file system (does each exist) and the home directory.
pub fn scan_dirs_from(search_paths: &Vec<String>, exists: &Vec<bool>, home: &str) -> (r: Vec<String>)
    requires
        exists@.len() == search_paths@.len(),
    ensures
        r.deep_view() == scan_dirs_of(search_paths.deep_view(), exists@, home@),
{
    let mut cands: Vec<(String, bool)> = Vec::new();
    let mut i: usize = 0;
    while i < search_paths.len()
        invariant
            i <= search_paths.len(),
            cands.deep_view() =~= as_plain_candidates(search_paths.deep_view().take(i as int)),
        decreases search_paths.len() - i,
    {
        let ghost before = cands.deep_view();
        let p = search_paths[i].clone();
        assert(search_paths.deep_view()[i as int] == p@);
        cands.push((p, false));
        assert(cands.deep_view() =~= before.push((search_paths.deep_view()[i as int], false)));
        assert(search_paths.deep_view().take(i + 1) =~= search_paths.deep_view().take(i as int).push(
            search_paths.deep_view()[i as int],
        ));
        i = i + 1;
    }
    assert(search_paths.deep_view().take(search_paths.len() as int) =~= search_paths.deep_view());
    let kept = collect_flagged(&cands, exists, false);
    if kept.len() == 0 {
        let mut r: Vec<String> = Vec::new();
        r.push(home.to_owned());
        assert(r.deep_view() =~= seq![home@]);
        return r;
    }
    kept
}

/// The directories to index, asking the file system whether each
/// configured path exists.
pub fn scan_dirs(search_paths: &Vec<String>, home: &str) -> (r: Vec<String>)
    ensures
        exists|flags: Seq<bool>|
            flags.len() == search_paths.len() && r.deep_view() == #[trigger] scan_dirs_of(
                search_paths.deep_view(),
                flags,
                home@,
            ),
{
    let answers = existence_of(search_paths);
    scan_dirs_from(search_paths, &answers, home)
}

} // verus!
