use spotsearch::desktop::{
    app_result, dedup_by_name, desktop_files_in_order, needs_reload, parse_desktop_file, AppCache, AppResult, DirStamp,
};
use spotsearch::search::{search, search_apps, SearchResult};

fn app(content: &str, file: &str) -> AppResult {
    let entry = parse_desktop_file(content).expect("entry");
    app_result(entry, file, None)
}

fn firefox() -> AppResult {
    app(
        "[Desktop Entry]\nName=Firefox\nExec=firefox %u\nIcon=firefox\nCategories=GNOME;Network;WebBrowser;\nKeywords=web;browser;\nGenericName=Web Browser\nTerminal=false\n",
        "/usr/share/applications/firefox.desktop",
    )
}

fn vscode() -> AppResult {
    app(
        "[Desktop Entry]\nName=Visual Studio Code\nExec=/usr/bin/code --unity-launch %F\nCategories=Development;IDE;\n",
        "/usr/share/applications/code.desktop",
    )
}

fn files_app() -> AppResult {
    app(
        "[Desktop Entry]\nName=Files\nExec=nautilus --new-window\nCategories=GTK;Utility;Core;\n",
        "/usr/share/applications/org.gnome.Nautilus.desktop",
    )
}

#[test]
fn parses_desktop_entry_fields() {
    let e = parse_desktop_file(
        "[Desktop Entry]\nName=Firefox\nExec=firefox %u\nIcon=firefox\nCategories=GNOME;Network;WebBrowser;\nKeywords=web;browser;\nGenericName=Web Browser\nTerminal=false\n",
    )
    .unwrap();
    assert_eq!(e.name, "Firefox");
    assert_eq!(e.command, "firefox");
    assert_eq!(e.icon_name, Some("firefox".to_string()));
    assert_eq!(e.categories, Some("Network".to_string()));
    assert_eq!(e.keywords, Some("web;browser;".to_string()));
    assert_eq!(e.generic_name, Some("Web Browser".to_string()));
    assert!(!e.terminal);
}

#[test]
fn hidden_and_nodisplay_entries_are_skipped() {
    assert!(parse_desktop_file("[Desktop Entry]\nName=X\nExec=x\nNoDisplay=true\n").is_none());
    assert!(parse_desktop_file("[Desktop Entry]\nName=X\nExec=x\nHidden=true\n").is_none());
}

#[test]
fn entries_without_name_or_command_are_skipped() {
    assert!(parse_desktop_file("[Desktop Entry]\nName=X\n").is_none());
    assert!(parse_desktop_file("[Desktop Entry]\nExec=x\n").is_none());
    assert!(parse_desktop_file("").is_none());
}

#[test]
fn only_the_desktop_entry_group_counts() {
    let e = parse_desktop_file(
        "[Desktop Action new]\nName=New Window\nExec=other\n[Desktop Entry]\nName=Main\nExec=main --flag %U\n[Desktop Action x]\nName=Later\nNoDisplay=true\n",
    )
    .unwrap();
    assert_eq!(e.name, "Main");
    assert_eq!(e.command, "main --flag");
}

#[test]
fn terminal_and_localised_keys() {
    let e = parse_desktop_file(
        "[Desktop Entry]\nName=Htop\nExec=htop\nTerminal= True \nKeywords[de]=prozess;\nGenericName[fr]=Moniteur\nCategories=Qt;KDE;\n",
    )
    .unwrap();
    assert!(e.terminal);
    assert_eq!(e.keywords, Some("prozess;".to_string()));
    assert_eq!(e.generic_name, Some("Moniteur".to_string()));
    assert_eq!(e.categories, None);
}

#[test]
fn app_record_has_lowercase_copies() {
    let a = firefox();
    assert_eq!(a.name_lower, "firefox");
    assert_eq!(a.exec_lower, "firefox");
    assert_eq!(a.desktop_file, "/usr/share/applications/firefox.desktop");
    assert_eq!(a.keywords_lower, "web;browser;");
    assert_eq!(a.generic_name_lower, "web browser");
    let b = vscode();
    assert_eq!(b.command, "/usr/bin/code --unity-launch");
    assert_eq!(b.keywords_lower, "");
}

#[test]
fn dedup_keeps_first_of_each_name() {
    let mut second = firefox();
    second.command = "firefox-esr".to_string();
    let out = dedup_by_name(vec![firefox(), vscode(), second, files_app()]);
    let names: Vec<String> = out.iter().map(|a| a.name.clone()).collect();
    assert_eq!(names, vec!["Firefox", "Visual Studio Code", "Files"]);
    assert_eq!(out[0].command, "firefox");
}

#[test]
fn app_cache_staleness() {
    let now = vec![
        DirStamp { dir: "/a".to_string(), modified: Some(5) },
        DirStamp { dir: "/b".to_string(), modified: None },
    ];
    assert!(needs_reload(&None, &now));
    assert!(!needs_reload(&Some(now.clone()), &now));
    let older = vec![
        DirStamp { dir: "/a".to_string(), modified: Some(4) },
        DirStamp { dir: "/b".to_string(), modified: None },
    ];
    assert!(needs_reload(&Some(older), &now));
    let missing = vec![DirStamp { dir: "/a".to_string(), modified: Some(5) }];
    assert!(!needs_reload(&Some(missing), &now));
    let new_dir = vec![DirStamp { dir: "/c".to_string(), modified: Some(1) }];
    assert!(needs_reload(&Some(now.clone()), &new_dir));
}

#[test]
fn search_matches_names_and_orders_short_first() {
    let apps = vec![firefox(), vscode(), files_app()];
    let r = search_apps("code", apps.clone());
    assert_eq!(r.len(), 1);
    assert_eq!(r[0].name, "Visual Studio Code");
    assert!(r[0].is_app);
    assert_eq!(r[0].command, Some("/usr/bin/code --unity-launch".to_string()));
    assert_eq!(r[0].subtitle, Some("Development".to_string()));
    let all = search_apps("e", apps);
    let names: Vec<String> = all.iter().map(|a| a.name.clone()).collect();
    assert_eq!(names, vec!["Files", "Firefox", "Visual Studio Code"]);
}

#[test]
fn search_matches_keywords_generic_names_and_acronyms() {
    let apps = vec![firefox(), vscode(), files_app()];
    let by_keyword = search_apps("browser", apps.clone());
    assert_eq!(by_keyword.len(), 1);
    assert_eq!(by_keyword[0].name, "Firefox");
    assert_eq!(by_keyword[0].subtitle, Some("Web Browser".to_string()));
    let by_acronym = search_apps("vsc", apps.clone());
    assert_eq!(by_acronym.len(), 1);
    assert_eq!(by_acronym[0].name, "Visual Studio Code");
    let by_file = search_apps("nautilus", apps.clone());
    assert_eq!(by_file[0].name, "Files");
    assert!(search_apps("firefox code", apps).is_empty());
}

#[test]
fn search_keeps_at_most_five_apps() {
    let mut apps = Vec::new();
    for i in 0..8 {
        let content = format!("[Desktop Entry]\nName=Tool{}\nExec=tool{}\n", "x".repeat(i), i);
        apps.push(app(&content, "/t.desktop"));
    }
    let r = search_apps("tool", apps);
    assert_eq!(r.len(), 5);
    assert_eq!(r[0].name, "Tool");
    assert_eq!(r[4].name, "Toolxxxx");
}

fn file(name: &str, path: &str) -> SearchResult {
    SearchResult {
        name: name.to_string(),
        path: Some(path.to_string()),
        icon_data: None,
        is_app: false,
        command: None,
        subtitle: None,
    }
}

#[test]
fn combined_search_puts_apps_first() {
    let apps = vec![firefox(), vscode()];
    let files = vec![file("code.txt", "/home/u/code.txt")];
    let r = search("Code", apps, files);
    assert_eq!(r.len(), 2);
    assert!(r[0].is_app);
    assert_eq!(r[1].name, "code.txt");
    assert_eq!(r[1].subtitle, Some("/home/u/code.txt".to_string()));
}

#[test]
fn blank_query_finds_nothing() {
    let r = search("   ", vec![firefox()], vec![file("a", "/a")]);
    assert!(r.is_empty());
}

#[test]
fn combined_search_keeps_thirty_files() {
    let files: Vec<SearchResult> = (0..35).map(|i| file(&format!("f{}", i), &format!("/f{}", i))).collect();
    let r = search("f", vec![], files);
    assert_eq!(r.len(), 30);
    assert_eq!(r[29].name, "f29");
}

#[test]
fn desktop_files_come_in_path_order() {
    let names = vec![
        "zed.desktop".to_string(),
        "README".to_string(),
        "Alpha.desktop".to_string(),
        "alpha.desktop".to_string(),
        "b.desktop.bak".to_string(),
        "émoji.desktop".to_string(),
    ];
    assert_eq!(
        desktop_files_in_order(names),
        vec!["Alpha.desktop", "alpha.desktop", "zed.desktop", "émoji.desktop"]
    );
}

#[test]
fn other_groups_do_not_change_the_entry() {
    let a = parse_desktop_file("[Desktop Entry]\nName=A\nExec=a\n[Desktop Action x]\nName=B\nNoDisplay=true\n").unwrap();
    let b = parse_desktop_file("[Other]\nExec=zzz\n[Desktop Entry]\nName=A\nExec=a\n").unwrap();
    assert_eq!(a.name, b.name);
    assert_eq!(a.command, b.command);
}

#[test]
fn unchanged_times_serve_the_cache() {
    let now = vec![
        DirStamp { dir: "/a".to_string(), modified: Some(7) },
        DirStamp { dir: "/b".to_string(), modified: Some(9) },
    ];
    assert!(!needs_reload(&Some(now.clone()), &now));
}

#[test]
fn cache_serves_stored_list_until_times_change() {
    let stamps = vec![
        DirStamp { dir: "/a".to_string(), modified: Some(7) },
        DirStamp { dir: "/b".to_string(), modified: None },
    ];
    let mut cache = AppCache::new();
    assert!(cache.cached(&stamps).is_none());
    cache.store(vec![firefox()], stamps.clone());
    let served = cache.cached(&stamps).expect("served from the cache");
    assert_eq!(served.len(), 1);
    assert_eq!(served[0].name, "Firefox");
    let changed = vec![
        DirStamp { dir: "/a".to_string(), modified: Some(8) },
        DirStamp { dir: "/b".to_string(), modified: None },
    ];
    assert!(cache.cached(&changed).is_none());
}
