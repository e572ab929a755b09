use spotsearch::index::{
    entry_allowed, extension_excluded, fts_query, gather_candidates, indexed_extension_of, like_pattern,
    needs_like_fallback, rank_candidates, scan_dirs, scan_dirs_from, search_terms, Candidate, FileRow,
};
use spotsearch::search::SearchResult;

fn row(name: &str, path: &str, ext: &str) -> FileRow {
    FileRow { name: name.to_string(), path: path.to_string(), extension: ext.to_string() }
}

fn cand(name: &str, score: i32) -> Candidate {
    Candidate {
        result: SearchResult {
            name: name.to_string(),
            path: Some(format!("/{}", name)),
            icon_data: None,
            is_app: false,
            command: None,
            subtitle: None,
        },
        score,
    }
}

#[test]
fn terms_are_sanitized_words() {
    assert_eq!(search_terms("  Foo-Bar  baz! "), vec!["foobar", "baz"]);
    assert!(search_terms("   ").is_empty());
    assert!(search_terms("!!! ??").is_empty());
    assert_eq!(search_terms("Ünïcode"), vec!["ünïcode"]);
}

#[test]
fn full_text_query_and_like_pattern() {
    let terms = search_terms("spot lib");
    assert_eq!(fts_query(&terms), "spot* AND lib*");
    assert_eq!(like_pattern(&terms), "%spot%lib%");
    let one = vec!["x".to_string()];
    assert_eq!(fts_query(&one), "x*");
    assert_eq!(like_pattern(&one), "%x%");
    assert_eq!(fts_query(&vec![]), "");
    assert_eq!(like_pattern(&vec![]), "%%");
}

#[test]
fn like_fallback_below_one_fifty() {
    assert!(needs_like_fallback(0));
    assert!(needs_like_fallback(149));
    assert!(!needs_like_fallback(150));
}

#[test]
fn gathering_scores_and_skips_seen_paths() {
    let mut seen: Vec<String> = Vec::new();
    let mut cands: Vec<Candidate> = Vec::new();
    gather_candidates(
        "main",
        vec![row("main.rs", "/main.rs", "rs"), row("zzz.txt", "/zzz.txt", "txt")],
        false,
        &mut seen,
        &mut cands,
    );
    assert_eq!(seen, vec!["/main.rs"]);
    assert_eq!(cands.len(), 1);
    assert_eq!(cands[0].result.name, "main.rs");
    assert_eq!(cands[0].result.path, Some("/main.rs".to_string()));
    assert!(!cands[0].result.is_app);
    assert!(cands[0].score > 0);
    gather_candidates(
        "  main ",
        vec![row("main.rs", "/main.rs", "rs"), row("main.py", "/main.py", "py")],
        true,
        &mut seen,
        &mut cands,
    );
    assert_eq!(seen, vec!["/main.rs", "/main.py"]);
    assert_eq!(cands.len(), 2);
    assert_eq!(cands[1].result.name, "main.py");
}

#[test]
fn ranking_orders_by_score_then_length_then_name() {
    let r = rank_candidates(vec![cand("bb", 10), cand("a", 5), cand("ab", 10), cand("c", 10), cand("z", 99)]);
    let names: Vec<String> = r.iter().map(|x| x.name.clone()).collect();
    assert_eq!(names, vec!["z", "c", "ab", "bb", "a"]);
}

#[test]
fn ranking_keeps_forty() {
    let cands: Vec<Candidate> = (0..50).map(|i| cand(&format!("n{:02}", i), 100 - i)).collect();
    let r = rank_candidates(cands);
    assert_eq!(r.len(), 40);
    assert_eq!(r[0].name, "n00");
    assert_eq!(r[39].name, "n39");
}

#[test]
fn walk_filters() {
    let excluded = vec!["node_modules".to_string(), "target".to_string()];
    assert!(!entry_allowed(".git", &excluded));
    assert!(!entry_allowed("node_modules", &excluded));
    assert!(entry_allowed("src", &excluded));
    assert!(entry_allowed("targets", &excluded));
}

#[test]
fn recorded_extensions() {
    assert_eq!(indexed_extension_of("a.tar.gz"), "gz");
    assert_eq!(indexed_extension_of(".bashrc"), "");
    assert_eq!(indexed_extension_of("Makefile"), "");
    let excluded = vec!["log".to_string(), "min.js".to_string()];
    assert!(extension_excluded("log", &excluded));
    assert!(!extension_excluded("js", &excluded));
}

#[test]
fn scan_dirs_fall_back_to_home() {
    let r = scan_dirs(&vec!["/definitely/not/here/spotsearch".to_string()], "/home/u");
    assert_eq!(r, vec!["/home/u"]);
    let r2 = scan_dirs(&vec!["/".to_string(), "/definitely/not/here/spotsearch".to_string()], "/home/u");
    assert_eq!(r2, vec!["/"]);
    let r3 = scan_dirs(&vec![], "/h");
    assert_eq!(r3, vec!["/h"]);
}

#[test]
fn scan_dirs_with_given_answers() {
    let paths = vec!["/a".to_string(), "/b".to_string(), "/a".to_string()];
    assert_eq!(scan_dirs_from(&paths, &vec![true, false, true], "/h"), vec!["/a", "/a"]);
    assert_eq!(scan_dirs_from(&paths, &vec![false, false, false], "/h"), vec!["/h"]);
}
