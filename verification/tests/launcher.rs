use spotsearch::launcher::{
    cli_toggle_requested, config_file_path, focus_response, has_toggle_flag, hyprland_rules, ipc_socket_path,
    is_toggle_message, launch_for, menu_action, second_instance_action, toggle_action, tray_click_action,
    FocusResponse, KeyboardGrab, WindowAction,
};
use spotsearch::search::SearchResult;

fn args(v: &[&str]) -> Vec<String> {
    v.iter().map(|s| s.to_string()).collect()
}

#[test]
fn toggle_flag_detection() {
    assert!(has_toggle_flag(&args(&["spotsearch", "--toggle"])));
    assert!(has_toggle_flag(&args(&["spotsearch", "-t"])));
    assert!(!has_toggle_flag(&args(&["spotsearch", "--toggled", "t"])));
    assert!(!has_toggle_flag(&args(&[])));
}

#[test]
fn toggling_flips_visibility() {
    assert_eq!(toggle_action(true), WindowAction::Hide);
    assert_eq!(toggle_action(false), WindowAction::ShowAndFocus);
}

#[test]
fn second_instance_shows_or_toggles() {
    assert_eq!(second_instance_action(&args(&["spotsearch"]), true), WindowAction::ShowAndFocus);
    assert_eq!(second_instance_action(&args(&["spotsearch", "-t"]), true), WindowAction::Hide);
    assert_eq!(second_instance_action(&args(&["spotsearch", "--toggle"]), false), WindowAction::ShowAndFocus);
}

#[test]
fn socket_message() {
    assert!(is_toggle_message(b"toggle"));
    assert!(!is_toggle_message(b"toggl"));
    assert!(!is_toggle_message(b"TOGGLE"));
    assert!(!is_toggle_message(b""));
}

#[test]
fn cli_toggle_option() {
    assert!(cli_toggle_requested(1, None));
    assert!(cli_toggle_requested(0, Some(true)));
    assert!(!cli_toggle_requested(0, Some(false)));
    assert!(!cli_toggle_requested(0, None));
}

#[test]
fn tray_menu_and_click() {
    assert_eq!(menu_action("toggle", true), WindowAction::Hide);
    assert_eq!(menu_action("quit", false), WindowAction::Quit);
    assert_eq!(menu_action("other", false), WindowAction::Nothing);
    assert_eq!(tray_click_action(true, false), WindowAction::ShowAndFocus);
    assert_eq!(tray_click_action(false, false), WindowAction::Nothing);
}

#[test]
fn focus_reactions() {
    assert_eq!(
        focus_response(true, true, true, false),
        FocusResponse { grab: KeyboardGrab::Grab, window: WindowAction::Nothing }
    );
    assert_eq!(
        focus_response(true, false, true, false),
        FocusResponse { grab: KeyboardGrab::Release, window: WindowAction::Hide }
    );
    assert_eq!(
        focus_response(true, false, false, false),
        FocusResponse { grab: KeyboardGrab::Release, window: WindowAction::Focus }
    );
    assert_eq!(
        focus_response(true, false, false, true),
        FocusResponse { grab: KeyboardGrab::Keep, window: WindowAction::Nothing }
    );
    assert_eq!(
        focus_response(false, false, true, false),
        FocusResponse { grab: KeyboardGrab::Keep, window: WindowAction::Nothing }
    );
}

fn result(is_app: bool, command: Option<&str>, path: Option<&str>) -> SearchResult {
    SearchResult {
        name: "n".to_string(),
        path: path.map(|s| s.to_string()),
        icon_data: None,
        is_app,
        command: command.map(|s| s.to_string()),
        subtitle: None,
    }
}

#[test]
fn opening_results() {
    let l = launch_for(&result(true, Some("  code  --new-window  /tmp "), None)).unwrap();
    assert_eq!(l.program, "code");
    assert_eq!(l.args, vec!["--new-window", "/tmp"]);
    assert!(launch_for(&result(true, Some("   "), Some("/x"))).is_none());
    assert!(launch_for(&result(true, None, Some("/x"))).is_none());
    let f = launch_for(&result(false, Some("ignored"), Some("/home/u/a b.txt"))).unwrap();
    assert_eq!(f.program, "xdg-open");
    assert_eq!(f.args, vec!["/home/u/a b.txt"]);
    assert!(launch_for(&result(false, None, None)).is_none());
}

#[test]
fn launcher_paths_and_rules() {
    assert_eq!(ipc_socket_path("/home/u/.config"), "/home/u/.config/launcher/spotsearch.sock");
    assert_eq!(config_file_path("/home/u/.config/"), "/home/u/.config/spotsearch/config.json");
    let rules = hyprland_rules();
    assert_eq!(rules.len(), 6);
    assert_eq!(rules[0], "float,title:SpotSearch");
    assert_eq!(rules[5], "center,title:SpotSearch");
}
