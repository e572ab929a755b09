//! The launcher's reactions to the outside world: command-line flags, the
//! toggle socket, the tray, focus changes, and what opening a result runs.
use vstd::prelude::*;
use crate::config::owned_all;
use crate::desktop::opt_view;
use crate::paths::{join_path, path_join};
use crate::search::{ResultView, SearchResult};
use crate::text::{chars_of, split_whitespace, split_whitespace_chars, string_of};

verus! {

/// What to do with the main window.
#[derive(PartialEq, Eq, Structural, Clone, Copy, Debug)]
pub enum WindowAction {
    Nothing,
    Hide,
    ShowAndFocus,
    Focus,
    Quit,
}

/// What to do with the exclusive keyboard grab (X11 only).
#[derive(PartialEq, Eq, Structural, Clone, Copy, Debug)]
pub enum KeyboardGrab {
    Keep,
    Grab,
    Release,
}

/// An argument that asks for the window to be toggled.
pub open spec fn is_toggle_arg(a: Seq<char>) -> bool {
    a == "--toggle"@ || a == "-t"@
}

/// Some argument asks for the window to be toggled.
pub open spec fn toggle_requested(args: Seq<Seq<char>>) -> bool {
    exists|i: int| 0 <= i < args.len() && is_toggle_arg(#[trigger] args[i])
}

/// Whether the command line holds `--toggle` or `-t`.
pub fn has_toggle_flag(args: &Vec<String>) -> (b: bool)
    ensures
        b == toggle_requested(args.deep_view()),
{
    let long = chars_of("--toggle");
    let short = chars_of("-t");
    let mut i: usize = 0;
    while i < args.len()
        invariant
            i <= args@.len(),
            long@ == "--toggle"@,
            short@ == "-t"@,
            forall|k: int| 0 <= k < i ==> !is_toggle_arg(#[trigger] args.deep_view()[k]),
        decreases args@.len() - i,
    {
        let a = chars_of(args[i].as_str());
        if crate::text::eq_chars(&a, &long) || crate::text::eq_chars(&a, &short) {
            assert(is_toggle_arg(args.deep_view()[i as int]));
            return true;
        }
        i = i + 1;
    }
    false
}

/// Toggling a window hides it when visible and shows it otherwise.
pub open spec fn toggled(visible: bool) -> WindowAction {
    if visible {
        WindowAction::Hide
    } else {
        WindowAction::ShowAndFocus
    }
}

/// Toggles the window.
pub fn toggle_action(visible: bool) -> (a: WindowAction)
    ensures
        a == toggled(visible),
{
    if visible {
        WindowAction::Hide
    } else {
        WindowAction::ShowAndFocus
    }
}

/// Whether the main window is visible after an action, given whether it
/// was before.
pub open spec fn visible_after(a: WindowAction, visible: bool) -> bool {
    match a {
        WindowAction::Hide => false,
        WindowAction::ShowAndFocus => true,
        WindowAction::Focus => visible,
        WindowAction::Nothing => visible,
        WindowAction::Quit => false,
    }
}

/// Toggling flips the window's visibility, so toggling twice restores it.
pub proof fn law_toggle_flips(visible: bool)
    ensures
        visible_after(toggled(visible), visible) == !visible,
        visible_after(toggled(!visible), visible_after(toggled(visible), visible)) == visible,
{
}

/// A second launch of the program hands its arguments over: with the
/// toggle flag the window is toggled, without it the window is shown.
pub fn second_instance_action(args: &Vec<String>, visible: bool) -> (a: WindowAction)
    ensures
        a == (if toggle_requested(args.deep_view()) {
            toggled(visible)
        } else {
            WindowAction::ShowAndFocus
        }),
{
    if has_toggle_flag(args) {
        toggle_action(visible)
    } else {
        WindowAction::ShowAndFocus
    }
}

/// The message a second launch writes to the toggle socket.
pub open spec fn toggle_message() -> Seq<u8> {
    seq![116u8, 111u8, 103u8, 103u8, 108u8, 101u8]
}

/// Whether the bytes read from the toggle socket are the toggle message.
pub fn is_toggle_message(received: &[u8]) -> (b: bool)
    ensures
        b == (received@ == toggle_message()),
{
    if received.len() != 6 {
        return false;
    }
    let b = received[0] == 116u8 && received[1] == 111u8 && received[2] == 103u8
        && received[3] == 103u8 && received[4] == 108u8 && received[5] == 101u8;
    if b {
        assert(received@ =~= toggle_message());
    }
    b
}

/// The `toggle` option of the command line was given: it occurred, or its
/// value is `true`.
pub fn cli_toggle_requested(occurrences: u8, value: Option<bool>) -> (b: bool)
    ensures
        b == (occurrences > 0 || value == Some(true)),
{
    occurrences > 0 || match value {
        Some(v) => v,
        None => false,
    }
}

/// The tray menu: `toggle` toggles the window, `quit` quits, anything else
/// does nothing.
pub fn menu_action(id: &str, visible: bool) -> (a: WindowAction)
    ensures
        a == (if id@ == "toggle"@ {
            toggled(visible)
        } else if id@ == "quit"@ {
            WindowAction::Quit
        } else {
            WindowAction::Nothing
        }),
{
    let c = chars_of(id);
    if crate::text::is_lit(&c, "toggle") {
        toggle_action(visible)
    } else if crate::text::is_lit(&c, "quit") {
        WindowAction::Quit
    } else {
        WindowAction::Nothing
    }
}

/// A click on the tray icon toggles the window when it is the left button.
pub fn tray_click_action(left_button: bool, visible: bool) -> (a: WindowAction)
    ensures
        a == (if left_button { toggled(visible) } else { WindowAction::Nothing }),
{
    if left_button {
        toggle_action(visible)
    } else {
        WindowAction::Nothing
    }
}

/// The reaction to a change of focus of a window.
#[derive(PartialEq, Eq, Structural, Clone, Copy, Debug)]
pub struct FocusResponse {
    pub grab: KeyboardGrab,
    pub window: WindowAction,
}

/// On X11 the main window holds the keyboard while it has focus. When it
/// loses focus it hides if the settings say so; otherwise, on X11, it takes
/// the focus back. Other windows are left alone.
pub open spec fn focus_response_of(is_main: bool, focused: bool, hide_on_blur: bool, wayland: bool) -> FocusResponse {
    if !is_main {
        FocusResponse { grab: KeyboardGrab::Keep, window: WindowAction::Nothing }
    } else {
        FocusResponse {
            grab: if wayland {
                KeyboardGrab::Keep
            } else if focused {
                KeyboardGrab::Grab
            } else {
                KeyboardGrab::Release
            },
            window: if focused {
                WindowAction::Nothing
            } else if hide_on_blur {
                WindowAction::Hide
            } else if !wayland {
                WindowAction::Focus
            } else {
                WindowAction::Nothing
            },
        }
    }
}

/// Decides what a change of focus does.
pub fn focus_response(is_main: bool, focused: bool, hide_on_blur: bool, wayland: bool) -> (r: FocusResponse)
    ensures
        r == focus_response_of(is_main, focused, hide_on_blur, wayland),
{
    if !is_main {
        return FocusResponse { grab: KeyboardGrab::Keep, window: WindowAction::Nothing };
    }
    let grab = if wayland {
        KeyboardGrab::Keep
    } else if focused {
        KeyboardGrab::Grab
    } else {
        KeyboardGrab::Release
    };
    let window = if focused {
        WindowAction::Nothing
    } else if hide_on_blur {
        WindowAction::Hide
    } else if !wayland {
        WindowAction::Focus
    } else {
        WindowAction::Nothing
    };
    FocusResponse { grab, window }
}

/// A program to start, with its arguments.
#[derive(Clone, Debug)]
pub struct Launch {
    pub program: String,
    pub args: Vec<String>,
}

/// What opening a result starts: for an application, the words of its
/// command line (nothing if it has none); for a file, `xdg-open` on its path.
pub open spec fn launch_of(r: ResultView) -> Option<(Seq<char>, Seq<Seq<char>>)> {
    if r.is_app {
        match r.command {
            Some(c) => {
                let parts = split_whitespace(c);
                if parts.len() > 0 {
                    Some((parts[0], parts.drop_first()))
                } else {
                    None
                }
            },
            None => None,
        }
    } else {
        match r.path {
            Some(p) => Some(("xdg-open"@, seq![p])),
            None => None,
        }
    }
}

/// The view of an optional launch.
pub open spec fn launch_view(l: Option<Launch>) -> Option<(Seq<char>, Seq<Seq<char>>)> {
    match l {
        Some(x) => Some((x.program@, x.args.deep_view())),
        None => None,
    }
}

/// Decides what opening a result starts.
pub fn launch_for(result: &SearchResult) -> (l: Option<Launch>)
    ensures
        launch_view(l) == launch_of(result@),
{
    if result.is_app {
        match &result.command {
            Some(c) => {
                let chars = chars_of(c.as_str());
                let parts = split_whitespace_chars(&chars);
                if parts.len() == 0 {
                    return None;
                }
                let program = string_of(parts[0].as_slice());
                let mut args: Vec<String> = Vec::new();
                let mut i: usize = 1;
                while i < parts.len()
                    invariant
                        1 <= i <= parts@.len(),
                        args@.len() == i - 1,
                        forall|k: int| 0 <= k < i - 1 ==> #[trigger] args@[k]@ == parts@[k + 1]@,
                    decreases parts@.len() - i,
                {
                    args.push(string_of(parts[i].as_slice()));
                    i = i + 1;
                }
                proof {
                    let d = parts.deep_view();
                    assert(d.len() == parts@.len());
                    assert forall|k: int| 0 <= k < d.len() implies #[trigger] d[k] == parts@[k]@ by {
                        assert(parts@[k].deep_view() =~= parts@[k]@);
                    }
                    assert(args.deep_view() =~= d.drop_first());
                }
                Some(Launch { program, args })
            },
            None => None,
        }
    } else {
        match &result.path {
            Some(p) => {
                let mut args: Vec<String> = Vec::new();
                args.push(p.clone());
                proof {
                    assert(args.deep_view() =~= seq![p@]);
                }
                Some(Launch { program: "xdg-open".to_owned(), args })
            },
            None => None,
        }
    }
}

/// The window rules that make the launcher float above everything under
/// Hyprland.
pub open spec fn hyprland_rules_list() -> Seq<Seq<char>> {
    seq![
        "float,title:SpotSearch"@,
        "pin,title:SpotSearch"@,
        "stayfocused,title:SpotSearch"@,
        "noborder,title:SpotSearch"@,
        "noshadow,title:SpotSearch"@,
        "center,title:SpotSearch"@,
    ]
}

/// The Hyprland window rules, each given to `hyprctl keyword windowrulev2`.
pub fn hyprland_rules() -> (r: Vec<String>)
    ensures
        r.deep_view() == hyprland_rules_list(),
{
    let rules: [&str; 6] = [
        "float,title:SpotSearch",
        "pin,title:SpotSearch",
        "stayfocused,title:SpotSearch",
        "noborder,title:SpotSearch",
        "noshadow,title:SpotSearch",
        "center,title:SpotSearch",
    ];
    let r = owned_all(&rules);
    assert(r.deep_view() =~= hyprland_rules_list());
    r
}

/// The toggle socket: `launcher/spotsearch.sock` under the configuration
/// directory.
pub fn ipc_socket_path(config_dir: &str) -> (r: String)
    ensures
        r@ == path_join(path_join(config_dir@, "launcher"@), "spotsearch.sock"@),
{
    let d = join_path(config_dir, "launcher");
    join_path(d.as_str(), "spotsearch.sock")
}

/// The settings file: `spotsearch/config.json` under the configuration
/// directory.
pub fn config_file_path(config_dir: &str) -> (r: String)
    ensures
        r@ == path_join(path_join(config_dir@, "spotsearch"@), "config.json"@),
{
    let d = join_path(config_dir, "spotsearch");
    join_path(d.as_str(), "config.json")
}


/// How the launcher reacts to focus: a window other than the main one is
/// left alone; on X11 the main window grabs the keyboard while focused and
/// releases it when not, and on Wayland the grab is never touched; a
/// focused main window stays as it is; when it loses focus it hides if
/// `hide_on_blur` is set, whatever the display server, and otherwise takes
/// the focus back on X11 and stays as it is on Wayland.
pub proof fn law_focus_reactions(is_main: bool, focused: bool, hide_on_blur: bool, wayland: bool)
    ensures
        !is_main ==> focus_response_of(is_main, focused, hide_on_blur, wayland) == (FocusResponse {
            grab: KeyboardGrab::Keep,
            window: WindowAction::Nothing,
        }),
        is_main && wayland ==> focus_response_of(is_main, focused, hide_on_blur, wayland).grab == KeyboardGrab::Keep,
        is_main && !wayland && focused ==> focus_response_of(is_main, focused, hide_on_blur, wayland).grab
            == KeyboardGrab::Grab,
        is_main && !wayland && !focused ==> focus_response_of(is_main, focused, hide_on_blur, wayland).grab
            == KeyboardGrab::Release,
        is_main && focused ==> focus_response_of(is_main, focused, hide_on_blur, wayland).window
            == WindowAction::Nothing,
        is_main && !focused && hide_on_blur ==> focus_response_of(is_main, focused, hide_on_blur, wayland).window
            == WindowAction::Hide,
        is_main && !focused && !hide_on_blur && !wayland ==> focus_response_of(
            is_main,
            focused,
            hide_on_blur,
            wayland,
        ).window == WindowAction::Focus,
        is_main && !focused && !hide_on_blur && wayland ==> focus_response_of(
            is_main,
            focused,
            hide_on_blur,
            wayland,
        ).window == WindowAction::Nothing,
{
}

} // verus!
