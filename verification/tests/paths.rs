use spotsearch::paths::{
    collect_flagged, file_extension, get_application_dirs, get_icon_search_dirs, holds, holds_path, icon_candidates,
    icon_data_uri, is_desktop_file, join_path, keep_existing, parse_xdg_user_dirs, paths_equal, pick_existing,
    resolve_icon_path, xdg_data_bases, absolute_home, application_dir_candidates,
};

#[test]
fn joins_paths() {
    assert_eq!(join_path("/a", "b"), "/a/b");
    assert_eq!(join_path("/a/", "b"), "/a/b");
    assert_eq!(join_path("", "b"), "b");
}

#[test]
fn xdg_bases_skip_empty_entries() {
    assert_eq!(xdg_data_bases(&Some("/a::/b".to_string())), vec!["/a", "/b"]);
    assert_eq!(xdg_data_bases(&Some("rel:/c:./d".to_string())), vec!["/c"]);
    assert!(xdg_data_bases(&None).is_empty());
    assert!(xdg_data_bases(&Some(String::new())).is_empty());
}

#[test]
fn keeps_existing_candidates_once() {
    let cands = vec![
        ("/".to_string(), true),
        ("/".to_string(), true),
        ("/definitely/not/here/spotsearch".to_string(), true),
    ];
    assert_eq!(keep_existing(&cands, false), vec!["/"]);
    let repeated = vec![("/".to_string(), false), ("/".to_string(), false)];
    assert_eq!(keep_existing(&repeated, true), vec!["/", "/"]);
    assert!(holds(&vec!["/x".to_string()], "/x"));
    assert!(!holds(&vec!["/x".to_string()], "/y"));
}

#[test]
fn application_dirs_are_known_and_distinct() {
    let dirs = get_application_dirs(&Some("/definitely/not/here/spotsearch".to_string()), &None);
    let known = [
        "/usr/share/applications",
        "/usr/local/share/applications",
        "/var/lib/flatpak/exports/share/applications",
    ];
    for d in &dirs {
        assert!(known.contains(&d.as_str()));
    }
    for i in 0..dirs.len() {
        for j in (i + 1)..dirs.len() {
            assert_ne!(dirs[i], dirs[j]);
        }
    }
}

#[test]
fn icon_dirs_are_hicolor_or_known() {
    let dirs = get_icon_search_dirs(&Some("/definitely/not/here/spotsearch".to_string()), &None);
    for d in &dirs {
        assert!(d.ends_with("/apps") || d == "/usr/share/pixmaps");
    }
}

#[test]
fn resolves_absolute_icons_by_existence() {
    assert_eq!(resolve_icon_path("/", &vec![]), Some("/".to_string()));
    assert_eq!(resolve_icon_path("/definitely/not/here/icon.png", &vec![]), None);
    assert_eq!(resolve_icon_path("firefox", &vec!["/definitely/not/here".to_string()]), None);
}

#[test]
fn icon_data_uris() {
    assert_eq!(icon_data_uri("a.svg", b"<svg/>".to_vec()), Some("data:image/svg+xml;utf8,<svg/>".to_string()));
    assert_eq!(
        icon_data_uri("a.svg", vec![0xff, 0xfe, 0x3c]),
        Some("data:image/svg+xml;base64,//48".to_string())
    );
    assert_eq!(icon_data_uri("/i/a.png", vec![1, 2, 3]), Some("data:image/png;base64,AQID".to_string()));
    assert_eq!(icon_data_uri("/i/a.png", vec![1, 2, 3, 4]), Some("data:image/png;base64,AQIDBA==".to_string()));
    assert_eq!(icon_data_uri("/i/a.png", vec![]), Some("data:image/png;base64,".to_string()));
    assert_eq!(icon_data_uri("a.xpm", vec![1, 2, 3]), None);
}

#[test]
fn file_extensions() {
    assert_eq!(file_extension("a.b.c"), Some("c".to_string()));
    assert_eq!(file_extension(".."), None);
    assert_eq!(file_extension(".x"), None);
    assert_eq!(file_extension("x."), Some(String::new()));
    assert_eq!(file_extension("noext"), None);
    assert!(is_desktop_file("firefox.desktop"));
    assert!(!is_desktop_file("firefox.desktop.bak"));
    assert!(!is_desktop_file(".desktop"));
}

#[test]
fn user_dirs_from_file() {
    let text = "# comment\nXDG_DESKTOP_DIR=\"$HOME/Desktop\"\n\nXDG_DOWNLOAD_DIR=\"$HOME/Downloads\"\nXDG_DESKTOP_DIR=\"$HOME/Desktop\"\n";
    assert_eq!(
        parse_xdg_user_dirs(Some(text.to_string()), "/home/u"),
        vec!["/home/u/Desktop", "/home/u/Downloads"]
    );
}

#[test]
fn user_dirs_default() {
    let expected = vec![
        "/home/u/Documents",
        "/home/u/Downloads",
        "/home/u/Desktop",
        "/home/u/Pictures",
        "/home/u/Videos",
        "/home/u/Music",
    ];
    assert_eq!(parse_xdg_user_dirs(None, "/home/u"), expected);
    assert_eq!(parse_xdg_user_dirs(Some("# nothing\n".to_string()), "/home/u"), expected);
}

#[test]
fn path_equality_follows_components() {
    assert!(paths_equal("/x/", "/x"));
    assert!(paths_equal("/usr//share", "/usr/share"));
    assert!(paths_equal("a/./b", "a/b"));
    assert!(!paths_equal("./a", "a"));
    assert!(!paths_equal("/a", "a"));
    assert!(!paths_equal("/a/b", "/a/c"));
    assert!(paths_equal("/", "//"));
    assert!(holds_path(&vec!["/x/".to_string()], "/x"));
    assert!(!holds(&vec!["/x/".to_string()], "/x"));
}

#[test]
fn collecting_with_given_answers() {
    let cands = vec![
        ("/usr/share/applications".to_string(), true),
        ("/usr//share/applications/".to_string(), true),
        ("/opt/apps".to_string(), true),
        ("/gone".to_string(), true),
    ];
    let answers = vec![true, true, true, false];
    assert_eq!(collect_flagged(&cands, &answers, true), vec!["/usr/share/applications", "/opt/apps"]);
    assert_eq!(
        collect_flagged(&cands, &answers, false),
        vec!["/usr/share/applications", "/usr//share/applications/", "/opt/apps"]
    );
    assert!(collect_flagged(&cands, &vec![false; 4], true).is_empty());
}

#[test]
fn picking_first_existing_icon() {
    let cands = icon_candidates("firefox", &vec!["/a".to_string(), "/b".to_string()]);
    assert_eq!(
        cands,
        vec!["/a/firefox.png", "/a/firefox.svg", "/a/firefox.xpm", "/b/firefox.png", "/b/firefox.svg", "/b/firefox.xpm"]
    );
    let answers = vec![false, false, false, false, true, true];
    assert_eq!(pick_existing(&cands, &answers), Some("/b/firefox.svg".to_string()));
    assert_eq!(pick_existing(&cands, &vec![false; 6]), None);
    assert_eq!(icon_candidates("/i/x.png", &vec!["/a".to_string()]), vec!["/i/x.png"]);
    assert_eq!(icon_candidates("logo.png", &vec![]), Vec::<String>::new());
}

#[test]
fn user_dirs_compare_as_paths() {
    let text = "A=/x/\nB=/x\nC=\"$HOME//Music\"\nD=$HOME/Music\n";
    assert_eq!(parse_xdg_user_dirs(Some(text.to_string()), "/home/u"), vec!["/x/", "/home/u//Music"]);
}

#[test]
fn relative_bases_are_skipped() {
    assert_eq!(absolute_home(&Some("rel/home".to_string())), None);
    assert_eq!(absolute_home(&Some("/home/u".to_string())), Some("/home/u".to_string()));
    let cands = application_dir_candidates(&Some("share:/opt/share".to_string()), &Some("u".to_string()));
    let paths: Vec<String> = cands.iter().map(|c| c.0.clone()).collect();
    assert_eq!(
        paths,
        vec![
            "/opt/share/applications",
            "/usr/share/applications",
            "/usr/local/share/applications",
            "/var/lib/flatpak/exports/share/applications",
        ]
    );
    assert_eq!(icon_candidates("app", &vec!["rel".to_string(), "/i".to_string()]), vec!["/i/app.png", "/i/app.svg", "/i/app.xpm"]);
    assert_eq!(resolve_icon_path("app", &vec!["rel".to_string()]), None);
}
