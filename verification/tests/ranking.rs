use spotsearch::fuzzy::{fuzzy_score, is_subsequence, score_subsequence_clustering, try_fuzzy_score};
use spotsearch::search::is_acronym_match;
use spotsearch::text::char_is_whitespace;
use spotsearch::update::strip_ansi_codes;

#[test]
fn exact_name_scores_ten_thousand() {
    assert_eq!(fuzzy_score("readme", "README", "/x/README", ""), 10000);
    assert_eq!(fuzzy_score("Main.RS", "main.rs", "/deep/down/main.rs", "rs"), 10000);
}

#[test]
fn prefix_match_with_project_bonus() {
    assert_eq!(fuzzy_score("main", "main.rs", "/home/u/projects/app/src/main.rs", "rs"), 5151);
}

#[test]
fn substring_at_word_boundary() {
    assert_eq!(fuzzy_score("report", "my_report.pdf", "/d/my_report.pdf", "pdf"), 2953);
}

#[test]
fn substring_inside_word() {
    assert_eq!(fuzzy_score("port", "report.txt", "/report.txt", "txt"), 1528);
}

#[test]
fn subsequence_match_with_clustering() {
    assert_eq!(fuzzy_score("mrs", "main.rs", "/main.rs", "rs"), 1039);
}

#[test]
fn path_only_match() {
    assert_eq!(fuzzy_score("docs", "a.txt", "/docs/a.txt", "txt"), 403);
}

#[test]
fn downloads_folder_bonus() {
    assert_eq!(fuzzy_score("a", "a.txt", "/home/u/Downloads/a.txt", "txt"), 5129);
}

#[test]
fn all_words_in_name() {
    assert_eq!(fuzzy_score("foo bar", "foo_bar.txt", "/p/foo_bar.txt", "txt"), 1967);
}

#[test]
fn words_spread_over_name_and_path() {
    assert_eq!(fuzzy_score("proj notes", "notes.md", "/home/u/proj/notes.md", "md"), 1168);
}

#[test]
fn unmatched_words_score_zero() {
    assert_eq!(fuzzy_score("qux zed", "foo.txt", "/foo.txt", "txt"), 0);
}

#[test]
fn unmatched_single_word_scores_zero() {
    assert_eq!(fuzzy_score("zzz", "main.rs", "/a/main.rs", "rs"), 0);
}

#[test]
fn checked_score_agrees() {
    assert_eq!(try_fuzzy_score("mrs", "main.rs", "/main.rs", "rs"), Some(1039));
    assert_eq!(try_fuzzy_score("zzz", "main.rs", "/a/main.rs", "rs"), Some(0));
}

#[test]
fn clustering_bonus_values() {
    assert_eq!(score_subsequence_clustering("abc", "abc"), 250);
    assert_eq!(score_subsequence_clustering("ac", "abc"), 235);
    assert_eq!(score_subsequence_clustering("mrs", "main.rs"), 190);
    assert_eq!(score_subsequence_clustering("a", "abc"), 0);
    assert_eq!(score_subsequence_clustering("abd", "abc"), 0);
}

#[test]
fn subsequence_checks() {
    assert!(is_subsequence("abc", "aXbYc"));
    assert!(!is_subsequence("acb", "abc"));
    assert!(is_subsequence("", "x"));
    assert!(!is_subsequence("x", ""));
}

#[test]
fn acronym_matches() {
    assert!(is_acronym_match("vsc", "Visual Studio Code"));
    assert!(is_acronym_match("VS", "Visual Studio Code"));
    assert!(is_acronym_match("vscx", "Visual Studio Code"));
    assert!(!is_acronym_match("xyz", "Visual Studio Code"));
    assert!(!is_acronym_match("a", "!!!"));
    assert!(is_acronym_match("gimp", "GNU Image Manipulation Program"));
}

#[test]
fn strips_ansi_sequences() {
    assert_eq!(strip_ansi_codes("\u{1b}[31mred\u{1b}[0m text"), "red text");
    assert_eq!(strip_ansi_codes("plain"), "plain");
    assert_eq!(strip_ansi_codes("\u{1b}Xy"), "Xy");
    assert_eq!(strip_ansi_codes("\u{1b}[1;32"), "");
}

#[test]
fn stripping_is_idempotent() {
    let once = strip_ansi_codes("a\u{1b}[2Kb\u{1b}[1mc");
    assert_eq!(once, "abc");
    assert_eq!(strip_ansi_codes(&once), once);
}

#[test]
fn whitespace_class() {
    for c in ['\t', '\n', '\r', ' ', '\u{85}', '\u{a0}', '\u{2003}', '\u{3000}'] {
        assert!(char_is_whitespace(c));
        assert!(c.is_whitespace());
    }
    for c in ['a', '\u{200b}', '_', '\u{180e}'] {
        assert!(!char_is_whitespace(c));
        assert_eq!(c.is_whitespace(), char_is_whitespace(c));
    }
}

#[test]
fn query_and_extension_case_do_not_matter() {
    assert_eq!(
        fuzzy_score("MAIN", "main.rs", "/p/main.rs", "RS"),
        fuzzy_score("main", "main.rs", "/p/main.rs", "rs")
    );
    assert_eq!(fuzzy_score("Report", "my_report.PDF", "/d/my_report.PDF", "PDF"), 2953);
}
