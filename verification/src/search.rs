//! The launcher's combined search: applications whose fields match every
//! query term, then indexed files.
use vstd::prelude::*;
use crate::desktop::{AppResult, AppView, opt_view, or_empty};
use crate::order::{insert_stable, sort_stable, lemma_insert_at, lemma_sort_stable, sorted_by, total_preorder};
use crate::text::{
    byte_len, chars_of, contains, contains_chars, char_is_alphanumeric, has_prefix, is_alphanumeric,
    lower_chars, lowercase, split_whitespace, split_whitespace_chars, starts_with, string_of,
    to_lowercase, utf8_len,
};

verus! {

/// One entry of the result list shown to the user.
#[derive(Clone, Debug)]
pub struct SearchResult {
    pub name: String,
    pub path: Option<String>,
    pub icon_data: Option<String>,
    pub is_app: bool,
    pub command: Option<String>,
    pub subtitle: Option<String>,
}

/// The mathematical value of a `SearchResult`.
pub struct ResultView {
    pub name: Seq<char>,
    pub path: Option<Seq<char>>,
    pub icon_data: Option<Seq<char>>,
    pub is_app: bool,
    pub command: Option<Seq<char>>,
    pub subtitle: Option<Seq<char>>,
}

impl View for SearchResult {
    type V = ResultView;

    open spec fn view(&self) -> ResultView {
        ResultView {
            name: self.name@,
            path: opt_view(self.path),
            icon_data: opt_view(self.icon_data),
            is_app: self.is_app,
            command: opt_view(self.command),
            subtitle: opt_view(self.subtitle),
        }
    }
}

impl DeepView for SearchResult {
    type V = ResultView;

    open spec fn deep_view(&self) -> ResultView {
        self@
    }
}

/// The first characters of the alphanumeric words of `s[i..]`, `prev`
/// telling whether `s[i - 1]` was alphanumeric.
pub open spec fn initials_from(s: Seq<char>, i: int, prev: bool) -> Seq<char>
    decreases s.len() - i,
{
    if i < 0 || i >= s.len() {
        seq![]
    } else if is_alphanumeric(s[i]) && !prev {
        seq![s[i]] + initials_from(s, i + 1, true)
    } else {
        initials_from(s, i + 1, is_alphanumeric(s[i]))
    }
}

/// The first characters of the words of `s`, words being the maximal runs
/// of alphanumeric characters.
pub open spec fn initials(s: Seq<char>) -> Seq<char> {
    initials_from(s, 0, false)
}

/// The query is an acronym of the name: the initials of the lowercase name
/// start with the lowercase query, or the lowercase query starts with them.
pub open spec fn acronym_match(query: Seq<char>, name: Seq<char>) -> bool {
    let ini = initials(lowercase(name));
    let ql = lowercase(query);
    ini.len() > 0 && (has_prefix(ini, ql) || has_prefix(ql, ini))
}

/// The initials of the words of a character sequence.
fn initials_exec(s: &Vec<char>) -> (r: Vec<char>)
    ensures
        r@ == initials(s@),
{
    let mut out: Vec<char> = Vec::new();
    let mut prev = false;
    let mut i: usize = 0;
    while i < s.len()
        invariant
            i <= s.len(),
            out@ + initials_from(s@, i as int, prev) == initials(s@),
        decreases s.len() - i,
    {
        let alnum = char_is_alphanumeric(s[i]);
        if alnum && !prev {
            let ghost before = out@;
            out.push(s[i]);
            assert(before + (seq![s@[i as int]] + initials_from(s@, i + 1, true)) =~= out@
                + initials_from(s@, i + 1, true));
        }
        prev = alnum;
        i = i + 1;
    }
    assert(out@ + Seq::<char>::empty() =~= out@);
    out
}

/// Whether `query` is an acronym of `name` (see `acronym_match`).
pub fn is_acronym_match(query: &str, name: &str) -> (b: bool)
    ensures
        b == acronym_match(query@, name@),
{
    let nl = lower_chars(name);
    let ql = lower_chars(query);
    let ini = initials_exec(&nl);
    if ini.len() == 0 {
        return false;
    }
    starts_with(&ini, &ql) || starts_with(&ql, &ini)
}

/// The application's fields, lowercased, or its initials match the term.
pub open spec fn term_hits(a: AppView, t: Seq<char>) -> bool {
    ||| contains(lowercase(a.name), t)
    ||| contains(lowercase(a.command), t)
    ||| contains(lowercase(a.desktop_file), t)
    ||| contains(lowercase(or_empty(a.keywords)), t)
    ||| contains(lowercase(or_empty(a.generic_name)), t)
    ||| acronym_match(t, a.name)
}

/// Every term hits the application.
pub open spec fn all_terms_hit(a: AppView, terms: Seq<Seq<char>>) -> bool {
    forall|i: int| 0 <= i < terms.len() ==> term_hits(a, #[trigger] terms[i])
}

/// The result shown for an application: its name, icon and command, and
/// as subtitle its generic name or else its category.
pub open spec fn as_result(a: AppView) -> ResultView {
    ResultView {
        name: a.name,
        path: None,
        icon_data: a.icon_data,
        is_app: true,
        command: Some(a.command),
        subtitle: match a.generic_name {
            Some(g) => Some(g),
            None => a.categories,
        },
    }
}

/// The results of the applications that every term hits, in their order.
pub open spec fn matching_apps(apps: Seq<AppView>, terms: Seq<Seq<char>>) -> Seq<ResultView>
    decreases apps.len(),
{
    if apps.len() == 0 {
        seq![]
    } else {
        let r = matching_apps(apps.drop_last(), terms);
        if all_terms_hit(apps.last(), terms) {
            r.push(as_result(apps.last()))
        } else {
            r
        }
    }
}

/// Shorter names (in UTF-8 bytes) come first.
pub open spec fn shorter_first() -> spec_fn(ResultView, ResultView) -> bool {
    |a: ResultView, b: ResultView| utf8_len(a.name) <= utf8_len(b.name)
}

/// At most the first `n` elements.
pub open spec fn at_most<T>(s: Seq<T>, n: nat) -> Seq<T> {
    if s.len() > n {
        s.take(n as int)
    } else {
        s
    }
}

/// The application results of a query: the matching applications, shorter
/// names first (stably), at most five.
pub open spec fn app_results(query: Seq<char>, apps: Seq<AppView>) -> Seq<ResultView> {
    at_most(
        sort_stable(matching_apps(apps, split_whitespace(lowercase(query))), shorter_first()),
        5,
    )
}

/// A file result with its path as subtitle.
pub open spec fn with_path_subtitle(r: ResultView) -> ResultView {
    ResultView { subtitle: r.path, ..r }
}

/// File results with their paths as subtitles, at most thirty.
pub open spec fn file_results(files: Seq<ResultView>) -> Seq<ResultView> {
    at_most(files.map_values(|r: ResultView| with_path_subtitle(r)), 30)
}

/// The combined results: none for a query without terms, else the
/// application results followed by the file results.
pub open spec fn search_of(query: Seq<char>, apps: Seq<AppView>, files: Seq<ResultView>) -> Seq<ResultView> {
    if split_whitespace(lowercase(query)).len() == 0 {
        seq![]
    } else {
        app_results(query, apps) + file_results(files)
    }
}

/// Inserts a result after every result whose name is not longer.
fn insert_shorter_first(out: &mut Vec<SearchResult>, x: SearchResult)
    ensures
        final(out).deep_view() == insert_stable(old(out).deep_view(), x@, shorter_first()),
{
    let ghost s = out.deep_view();
    let xl = byte_len(x.name.as_str());
    let mut j = out.len();
    while j > 0
        invariant
            j <= out.len(),
            s == out.deep_view(),
            xl == utf8_len(x@.name),
            forall|k: int| j <= k < s.len() ==> !(shorter_first())(#[trigger] s[k], x@),
        ensures
            j <= out.len(),
            forall|k: int| j <= k < s.len() ==> !(shorter_first())(#[trigger] s[k], x@),
            j > 0 ==> (shorter_first())(s[j - 1], x@),
        decreases j,
    {
        let l = byte_len(out[j - 1].name.as_str());
        assert(s[j - 1] == out@[j - 1]@);
        if l <= xl {
            break;
        }
        j = j - 1;
    }
    proof {
        lemma_insert_at(s, x@, shorter_first(), j as int);
    }
    let ghost xv = x@;
    out.insert(j, x);
    assert(out.deep_view() =~= s.insert(j as int, xv));
}

/// Whether every term hits the application.
fn app_matches(
    terms: &Vec<Vec<char>>,
    a: &AppResult,
    name: &Vec<char>,
    command: &Vec<char>,
    file: &Vec<char>,
    keywords: &Vec<char>,
    generic: &Vec<char>,
) -> (b: bool)
    requires
        name@ == lowercase(a.name@),
        command@ == lowercase(a.command@),
        file@ == lowercase(a.desktop_file@),
        keywords@ == lowercase(or_empty(opt_view(a.keywords))),
        generic@ == lowercase(or_empty(opt_view(a.generic_name))),
    ensures
        b == all_terms_hit(a@, terms.deep_view()),
{
    let mut i: usize = 0;
    while i < terms.len()
        invariant
            i <= terms.len(),
            name@ == lowercase(a.name@),
            command@ == lowercase(a.command@),
            file@ == lowercase(a.desktop_file@),
            keywords@ == lowercase(or_empty(opt_view(a.keywords))),
            generic@ == lowercase(or_empty(opt_view(a.generic_name))),
            forall|k: int| 0 <= k < i ==> term_hits(a@, #[trigger] terms.deep_view()[k]),
        decreases terms.len() - i,
    {
        let t = &terms[i];
        assert(terms.deep_view()[i as int] =~= t@);
        let ts = string_of(t.as_slice());
        let h1 = contains_chars(name, t);
        let h2 = contains_chars(command, t);
        let h3 = contains_chars(file, t);
        let h4 = contains_chars(keywords, t);
        let h5 = contains_chars(generic, t);
        let h6 = is_acronym_match(ts.as_str(), a.name.as_str());
        let hit = h1 || h2 || h3 || h4 || h5 || h6;
        assert(hit == term_hits(a@, t@));
        if !hit {
            assert(!term_hits(a@, terms.deep_view()[i as int]));
            return false;
        }
        i = i + 1;
    }
    true
}

/// The lowercase characters of an optional string, absent counting as empty.
fn lower_opt(o: &Option<String>) -> (r: Vec<char>)
    ensures
        r@ == lowercase(or_empty(opt_view(*o))),
{
    match o {
        Some(s) => lower_chars(s.as_str()),
        None => {
            let e = String::new();
            lower_chars(e.as_str())
        },
    }
}

/// The result shown for an application.
fn app_as_result(a: AppResult) -> (r: SearchResult)
    ensures
        r@ == as_result(a@),
{
    let subtitle = match a.generic_name {
        Some(g) => Some(g),
        None => a.categories,
    };
    SearchResult {
        name: a.name,
        path: None,
        icon_data: a.icon_data,
        is_app: true,
        command: Some(a.command),
        subtitle,
    }
}

/// The applications matching every term of the query, shorter names
/// first, at most five.
pub fn search_apps(query: &str, apps: Vec<AppResult>) -> (r: Vec<SearchResult>)
    ensures
        r.deep_view() == app_results(query@, apps.deep_view()),
{
    let ghost all = apps.deep_view();
    let q = lower_chars(query);
    let terms = split_whitespace_chars(&q);
    let mut rest = apps;
    let mut out: Vec<SearchResult> = Vec::new();
    let n = rest.len();
    let mut i: usize = 0;
    assert(rest.deep_view() =~= all.skip(0));
    assert(all.take(0) =~= Seq::<AppView>::empty());
    while i < n
        invariant
            n == all.len(),
            i <= n,
            rest.deep_view() =~= all.skip(i as int),
            terms.deep_view() == split_whitespace(lowercase(query@)),
            out.deep_view() == sort_stable(
                matching_apps(all.take(i as int), terms.deep_view()),
                shorter_first(),
            ),
        decreases n - i,
    {
        let ghost before = rest.deep_view();
        let ghost old_rest = rest@;
        assert(before.len() == n - i);
        let a = rest.remove(0);
        assert(a@ == all[i as int]) by {
            assert(before[0] == all[i as int]);
        }
        assert forall|k: int| 0 <= k < rest.len() implies #[trigger] rest.deep_view()[k] == all.skip(
            i + 1,
        )[k] by {
            assert(rest@[k] == old_rest[k + 1]);
            assert(before[k + 1] == all[i + 1 + k]);
        }
        assert(all.take(i + 1).drop_last() =~= all.take(i as int));
        let name = lower_chars(a.name.as_str());
        let command = lower_chars(a.command.as_str());
        let file = lower_chars(a.desktop_file.as_str());
        let keywords = lower_opt(&a.keywords);
        let generic = lower_opt(&a.generic_name);
        if app_matches(&terms, &a, &name, &command, &file, &keywords, &generic) {
            let ghost m = matching_apps(all.take(i as int), terms.deep_view());
            let r = app_as_result(a);
            insert_shorter_first(&mut out, r);
            assert(matching_apps(all.take(i + 1), terms.deep_view()) == m.push(as_result(all[i as int])));
            assert(m.push(as_result(all[i as int])).drop_last() =~= m);
        }
        i = i + 1;
    }
    assert(all.take(n as int) =~= all);
    out.truncate(5);
    proof {
        let s = sort_stable(matching_apps(all, terms.deep_view()), shorter_first());
        if s.len() > 5 {
            assert(out.deep_view() =~= s.take(5));
        }
    }
    out
}

/// Sets each file result's subtitle to its path and keeps at most thirty.
fn finish_file_results(files: Vec<SearchResult>) -> (r: Vec<SearchResult>)
    ensures
        r.deep_view() == file_results(files.deep_view()),
{
    let ghost all = files.deep_view();
    let mut rest = files;
    let mut out: Vec<SearchResult> = Vec::new();
    let n = rest.len();
    let mut i: usize = 0;
    assert(rest.deep_view() =~= all.skip(0));
    while i < n
        invariant
            n == all.len(),
            i <= n,
            rest.deep_view() =~= all.skip(i as int),
            out.deep_view() =~= all.take(i as int).map_values(|r: ResultView| with_path_subtitle(r)),
        decreases n - i,
    {
        let ghost before = rest.deep_view();
        let ghost old_rest = rest@;
        assert(before.len() == n - i);
        let f = rest.remove(0);
        assert(f@ == all[i as int]) by {
            assert(before[0] == all[i as int]);
        }
        assert forall|k: int| 0 <= k < rest.len() implies #[trigger] rest.deep_view()[k] == all.skip(
            i + 1,
        )[k] by {
            assert(rest@[k] == old_rest[k + 1]);
            assert(before[k + 1] == all[i + 1 + k]);
        }
        let subtitle = match &f.path {
            Some(p) => Some(p.clone()),
            None => None,
        };
        let g = SearchResult { subtitle, ..f };
        assert(g@ == with_path_subtitle(all[i as int]));
        let ghost ob = out.deep_view();
        out.push(g);
        assert(out.deep_view() =~= ob.push(with_path_subtitle(all[i as int])));
        assert(all.take(i + 1).map_values(|r: ResultView| with_path_subtitle(r)) =~= all.take(
            i as int,
        ).map_values(|r: ResultView| with_path_subtitle(r)).push(with_path_subtitle(all[i as int])));
        i = i + 1;
    }
    assert(all.take(n as int) =~= all);
    out.truncate(30);
    proof {
        let s = all.map_values(|r: ResultView| with_path_subtitle(r));
        if s.len() > 30 {
            assert(out.deep_view() =~= s.take(30));
        }
    }
    out
}

/// The launcher's search: for a query with at least one term, the matching
/// applications (shorter names first, at most five) followed by the file
/// results with their paths as subtitles (at most thirty).
pub fn search(query: &str, apps: Vec<AppResult>, files: Vec<SearchResult>) -> (r: Vec<SearchResult>)
    ensures
        r.deep_view() == search_of(query@, apps.deep_view(), files.deep_view()),
{
    let q = lower_chars(query);
    let terms = split_whitespace_chars(&q);
    if terms.len() == 0 {
        return Vec::new();
    }
    let mut results = search_apps(query, apps);
    let mut file_part = finish_file_results(files);
    let ghost a = results.deep_view();
    let ghost f = file_part.deep_view();
    results.append(&mut file_part);
    assert(results.deep_view() =~= a + f);
    results
}

/// Every result of `matching_apps` is the result of an application that
/// every term hits.
proof fn lemma_matching_apps_hit(apps: Seq<AppView>, terms: Seq<Seq<char>>, r: ResultView)
    requires
        matching_apps(apps, terms).contains(r),
    ensures
        exists|k: int| 0 <= k < apps.len() && all_terms_hit(apps[k], terms) && r == as_result(
            #[trigger] apps[k],
        ),
    decreases apps.len(),
{
    let m = matching_apps(apps.drop_last(), terms);
    if all_terms_hit(apps.last(), terms) && r == as_result(apps.last()) {
        assert(apps[apps.len() - 1] == apps.last());
    } else {
        if all_terms_hit(apps.last(), terms) {
            let j = choose|j: int| 0 <= j < m.push(as_result(apps.last())).len() && m.push(
                as_result(apps.last()),
            )[j] == r;
            assert(j < m.len());
            assert(m[j] == r);
        }
        assert(m.contains(r));
        lemma_matching_apps_hit(apps.drop_last(), terms, r);
        let k = choose|k: int| 0 <= k < apps.drop_last().len() && all_terms_hit(
            apps.drop_last()[k],
            terms,
        ) && r == as_result(#[trigger] apps.drop_last()[k]);
        assert(apps[k] == apps.drop_last()[k]);
    }
}

/// The application part of a search: at most five results, shorter names
/// first, each the result of an application that every query term hits
/// (in its name, command, desktop file, keywords or generic name, or as an
/// acronym of its name).
pub proof fn law_app_results(query: Seq<char>, apps: Seq<AppView>)
    ensures
        app_results(query, apps).len() <= 5,
        sorted_by(app_results(query, apps), shorter_first()),
        forall|i: int| 0 <= i < app_results(query, apps).len() ==> exists|k: int|
            0 <= k < apps.len() && all_terms_hit(apps[k], split_whitespace(lowercase(query)))
                && #[trigger] app_results(query, apps)[i] == as_result(apps[k]),
{
    broadcast use vstd::seq_lib::group_to_multiset_ensures;

    let terms = split_whitespace(lowercase(query));
    let m = matching_apps(apps, terms);
    let s = sort_stable(m, shorter_first());
    let r = app_results(query, apps);
    assert(total_preorder(shorter_first()));
    lemma_sort_stable(m, shorter_first());
    assert forall|i: int, j: int| 0 <= i < j < r.len() implies (shorter_first())(
        #[trigger] r[i],
        #[trigger] r[j],
    ) by {
        assert(r[i] == s[i] && r[j] == s[j]);
    }
    assert forall|i: int| 0 <= i < r.len() implies exists|k: int|
        0 <= k < apps.len() && all_terms_hit(apps[k], terms) && #[trigger] r[i] == as_result(
            apps[k],
        ) by {
        assert(r[i] == s[i]);
        assert(s.to_multiset().count(s[i]) > 0);
        assert(m.to_multiset().count(s[i]) > 0);
        assert(m.contains(s[i]));
        lemma_matching_apps_hit(apps, terms, s[i]);
    }
}

/// The layout of the combined results: nothing for a query without terms;
/// otherwise at most five application results followed by at most thirty
/// file results, each file result showing its path as subtitle.
pub proof fn law_search_layout(query: Seq<char>, apps: Seq<AppView>, files: Seq<ResultView>)
    ensures
        split_whitespace(lowercase(query)).len() == 0 ==> search_of(query, apps, files).len() == 0,
        split_whitespace(lowercase(query)).len() > 0 ==> {
            let r = search_of(query, apps, files);
            let a = app_results(query, apps).len();
            &&& a <= 5
            &&& r.len() <= a + 30
            &&& r.take(a as int) == app_results(query, apps)
            &&& forall|i: int| a <= i < r.len() ==> #[trigger] r[i] == with_path_subtitle(files[i - a])
        },
{
    law_app_results(query, apps);
    if split_whitespace(lowercase(query)).len() > 0 {
        let r = search_of(query, apps, files);
        let ap = app_results(query, apps);
        let f = file_results(files);
        assert(r == ap + f);
        assert(r.take(ap.len() as int) =~= ap);
        assert forall|i: int| ap.len() <= i < r.len() implies #[trigger] r[i] == with_path_subtitle(
            files[i - ap.len()],
        ) by {
            assert(r[i] == f[i - ap.len()]);
        }
    }
}


/// An application whose fields answer every query term is among the
/// matching applications, and every matching result comes from an
/// application whose fields answer every term: a term answers an
/// application when it occurs in its lowercase name, command, desktop file
/// path, keywords or generic name, or is an acronym of its name.
pub proof fn law_matching_by_fields(apps: Seq<AppView>, terms: Seq<Seq<char>>, k: int)
    requires
        0 <= k < apps.len(),
    ensures
        (forall|i: int| 0 <= i < terms.len() ==> {
            let t = #[trigger] terms[i];
            let a = apps[k];
            contains(lowercase(a.name), t) || contains(lowercase(a.command), t) || contains(
                lowercase(a.desktop_file),
                t,
            ) || contains(lowercase(or_empty(a.keywords)), t) || contains(lowercase(or_empty(a.generic_name)), t)
                || acronym_match(t, a.name)
        }) ==> matching_apps(apps, terms).contains(as_result(apps[k])),
        forall|r: ResultView| #[trigger] matching_apps(apps, terms).contains(r) ==> exists|j: int|
            0 <= j < apps.len() && r == as_result(#[trigger] apps[j]) && forall|i: int| 0 <= i < terms.len() ==> {
                let t = #[trigger] terms[i];
                let a = apps[j];
                contains(lowercase(a.name), t) || contains(lowercase(a.command), t) || contains(
                    lowercase(a.desktop_file),
                    t,
                ) || contains(lowercase(or_empty(a.keywords)), t) || contains(
                    lowercase(or_empty(a.generic_name)),
                    t,
                ) || acronym_match(t, a.name)
            },
{
    assert forall|r: ResultView| #[trigger] matching_apps(apps, terms).contains(r) implies exists|j: int|
        0 <= j < apps.len() && r == as_result(#[trigger] apps[j]) && forall|i: int| 0 <= i < terms.len() ==> {
            let t = #[trigger] terms[i];
            let a = apps[j];
            contains(lowercase(a.name), t) || contains(lowercase(a.command), t) || contains(
                lowercase(a.desktop_file),
                t,
            ) || contains(lowercase(or_empty(a.keywords)), t) || contains(
                lowercase(or_empty(a.generic_name)),
                t,
            ) || acronym_match(t, a.name)
        } by {
        lemma_matching_apps_hit(apps, terms, r);
        let j = choose|j: int| 0 <= j < apps.len() && all_terms_hit(apps[j], terms) && r == as_result(
            #[trigger] apps[j],
        );
        assert forall|i: int| 0 <= i < terms.len() implies {
            let t = #[trigger] terms[i];
            let a = apps[j];
            contains(lowercase(a.name), t) || contains(lowercase(a.command), t) || contains(
                lowercase(a.desktop_file),
                t,
            ) || contains(lowercase(or_empty(a.keywords)), t) || contains(
                lowercase(or_empty(a.generic_name)),
                t,
            ) || acronym_match(t, a.name)
        } by {
            assert(term_hits(apps[j], terms[i]));
        }
    }
    if (forall|i: int| 0 <= i < terms.len() ==> {
        let t = #[trigger] terms[i];
        let a = apps[k];
        contains(lowercase(a.name), t) || contains(lowercase(a.command), t) || contains(
            lowercase(a.desktop_file),
            t,
        ) || contains(lowercase(or_empty(a.keywords)), t) || contains(lowercase(or_empty(a.generic_name)), t)
            || acronym_match(t, a.name)
    }) {
        assert(all_terms_hit(apps[k], terms)) by {
            assert forall|i: int| 0 <= i < terms.len() implies term_hits(apps[k], #[trigger] terms[i]) by {}
        }
        lemma_matching_apps_contains(apps, terms, k);
    }
}

/// An application every term hits has its result among the matching ones.
proof fn lemma_matching_apps_contains(apps: Seq<AppView>, terms: Seq<Seq<char>>, k: int)
    requires
        0 <= k < apps.len(),
        all_terms_hit(apps[k], terms),
    ensures
        matching_apps(apps, terms).contains(as_result(apps[k])),
    decreases apps.len(),
{
    let p = apps.drop_last();
    let m = matching_apps(p, terms);
    if k == apps.len() - 1 {
        assert(matching_apps(apps, terms) == m.push(as_result(apps.last())));
        assert(m.push(as_result(apps.last()))[m.len() as int] == as_result(apps[k]));
    } else {
        assert(p[k] == apps[k]);
        lemma_matching_apps_contains(p, terms, k);
        let j = choose|j: int| 0 <= j < m.len() && m[j] == as_result(apps[k]);
        if all_terms_hit(apps.last(), terms) {
            assert(m.push(as_result(apps.last()))[j] == as_result(apps[k]));
        }
    }
}

} // verus!
