use spotsearch::config::{default_hide_on_blur, AppConfig, ThemeColors};
use spotsearch::update::{
    current_version, installer_script_path, package_refs, package_version, relaunch_path, remote_version,
    repo_path_of, update_info, update_notices, version_from_git_output, UpdateEvent, UpdateNotice,
};

#[test]
fn default_theme_colours() {
    let t = ThemeColors::default();
    assert_eq!(t.bg_color, "#2b2b2b");
    assert_eq!(t.text_color, "#f4f4f5");
    assert_eq!(t.text_dim, "#a1a1aa");
    assert_eq!(t.accent_bg, "rgba(139, 92, 246, 0.15)");
    assert_eq!(t.accent_bar, "#8560f6");
    assert_eq!(t.glow_color, "rgba(139, 92, 246, 0.12)");
}

#[test]
fn default_settings_for_home() {
    assert!(default_hide_on_blur());
    let c = AppConfig::with_home("/home/u".to_string());
    assert_eq!(c.search_paths, vec!["/home/u"]);
    assert_eq!(c.max_depth, 7);
    assert!(c.hide_on_blur);
    assert_eq!(c.excluded_dirs.len(), 37);
    assert_eq!(c.excluded_dirs[0], "node_modules");
    assert_eq!(c.excluded_dirs[36], ".Trash-1000");
    assert_eq!(c.excluded_extensions.len(), 18);
    assert!(c.excluded_extensions.contains(&"min.js".to_string()));
    assert_eq!(c.excluded_extensions[17], "egg-info");
    assert_eq!(c.theme.accent_bar, "#8560f6");
}

#[test]
fn package_versions() {
    assert_eq!(package_version("{\"name\": \"x\", \"version\": \"1.2.3\"}"), Some("1.2.3".to_string()));
    assert_eq!(package_version("{}"), None);
    assert_eq!(package_version("not json"), None);
    assert_eq!(package_version("{\"version\": 5}"), None);
}

#[test]
fn versions_from_git() {
    assert_eq!(version_from_git_output(true, b"{\"version\":\"2.0.0\"}".to_vec()), Some("2.0.0".to_string()));
    assert_eq!(version_from_git_output(false, b"{\"version\":\"2.0.0\"}".to_vec()), None);
    assert_eq!(version_from_git_output(true, vec![0xff, 0xfe]), None);
}

#[test]
fn installed_version_and_repo() {
    assert_eq!(current_version(Some(" 1.4.0\n".to_string())), "1.4.0");
    assert_eq!(current_version(None), "1.0.1");
    assert_eq!(repo_path_of(Some("/src/spot\n".to_string())), Some("/src/spot".to_string()));
    assert_eq!(repo_path_of(None), None);
}

#[test]
fn update_reports() {
    let i = update_info("1.0.1".to_string(), Some("/r".to_string()), Some("1.1.0".to_string()), None);
    assert!(i.has_update);
    assert_eq!(i.latest_version, "1.1.0");
    assert_eq!(i.current_version, "1.0.1");
    assert_eq!(i.repo_path, Some("/r".to_string()));
    let j = update_info("1.0.1".to_string(), None, Some("9.9.9".to_string()), None);
    assert!(!j.has_update);
    assert_eq!(j.latest_version, "1.0.1");
    let k = update_info("1.0.1".to_string(), Some("/r".to_string()), None, Some("1.0.1".to_string()));
    assert!(!k.has_update);
    let l = update_info("1.0.1".to_string(), Some("/r".to_string()), None, Some("1.2.0".to_string()));
    assert!(l.has_update);
    assert_eq!(l.latest_version, "1.2.0");
    let m = update_info("1.0.1".to_string(), Some("/r".to_string()), None, None);
    assert!(!m.has_update);
}

fn log_of(n: &UpdateNotice) -> Option<(String, bool)> {
    match n {
        UpdateNotice::Log { message, is_system } => Some((message.clone(), *is_system)),
        _ => None,
    }
}

#[test]
fn update_progress_notices() {
    let s = update_notices(UpdateEvent::Started);
    assert_eq!(log_of(&s[0]), Some(("Starting update process...".to_string(), true)));
    assert_eq!(s.len(), 2);
    let p = update_notices(UpdateEvent::PullFinished(false));
    assert_eq!(
        log_of(&p[0]),
        Some(("Warning: Git pull failed or repository has no remote.".to_string(), true))
    );
    assert_eq!(log_of(&p[1]), Some(("Running install script...".to_string(), true)));
    let o = update_notices(UpdateEvent::InstallerOutput("\u{1b}[32mok\u{1b}[0m".to_string()));
    assert_eq!(o.len(), 1);
    assert_eq!(log_of(&o[0]), Some(("ok".to_string(), false)));
    let n = update_notices(UpdateEvent::InstallerNotStarted("no bash".to_string()));
    assert_eq!(log_of(&n[0]), Some(("Failed to start installer script: no bash".to_string(), true)));
    assert!(matches!(&n[1], UpdateNotice::Failed(m) if m == "Failed to start installer script: no bash"));
    let ok = update_notices(UpdateEvent::InstallerFinished(true));
    assert_eq!(ok.len(), 3);
    assert!(matches!(ok[2], UpdateNotice::Complete));
    let bad = update_notices(UpdateEvent::InstallerFinished(false));
    assert!(matches!(&bad[1], UpdateNotice::Failed(m) if m == "Auto-update failed to build or install."));
}

#[test]
fn update_paths() {
    assert_eq!(installer_script_path("/src/spot"), "/src/spot/install.sh");
    assert_eq!(relaunch_path("/home/u"), "/home/u/.local/bin/spotsearch");
}

#[test]
fn remote_version_takes_first_found() {
    assert_eq!(package_refs(), vec!["origin/main:package.json", "origin/master:package.json"]);
    let outs = vec![
        (false, b"fatal: invalid object name".to_vec()),
        (true, b"{\"version\":\"3.1.0\"}".to_vec()),
    ];
    assert_eq!(remote_version(outs), Some("3.1.0".to_string()));
    let both = vec![(true, b"{\"version\":\"1\"}".to_vec()), (true, b"{\"version\":\"2\"}".to_vec())];
    assert_eq!(remote_version(both), Some("1".to_string()));
    assert_eq!(remote_version(vec![]), None);
}
