//! The user's settings: theme colours, where to index and what to skip.
use vstd::prelude::*;

verus! {

/// The colours of the launcher window.
#[derive(Clone, Debug)]
pub struct ThemeColors {
    pub bg_color: String,
    pub text_color: String,
    pub text_dim: String,
    pub accent_bg: String,
    pub accent_bar: String,
    pub glow_color: String,
}

/// The mathematical value of a `ThemeColors`.
pub struct ThemeView {
    pub bg_color: Seq<char>,
    pub text_color: Seq<char>,
    pub text_dim: Seq<char>,
    pub accent_bg: Seq<char>,
    pub accent_bar: Seq<char>,
    pub glow_color: Seq<char>,
}

impl View for ThemeColors {
    type V = ThemeView;

    open spec fn view(&self) -> ThemeView {
        ThemeView {
            bg_color: self.bg_color@,
            text_color: self.text_color@,
            text_dim: self.text_dim@,
            accent_bg: self.accent_bg@,
            accent_bar: self.accent_bar@,
            glow_color: self.glow_color@,
        }
    }
}

/// The built-in dark theme with a violet accent.
pub open spec fn default_theme() -> ThemeView {
    ThemeView {
        bg_color: "#2b2b2b"@,
        text_color: "#f4f4f5"@,
        text_dim: "#a1a1aa"@,
        accent_bg: "rgba(139, 92, 246, 0.15)"@,
        accent_bar: "#8560f6"@,
        glow_color: "rgba(139, 92, 246, 0.12)"@,
    }
}

impl Default for ThemeColors {
    fn default() -> (r: Self)
        ensures
            r@ == default_theme(),
    {
        ThemeColors {
            bg_color: "#2b2b2b".to_owned(),
            text_color: "#f4f4f5".to_owned(),
            text_dim: "#a1a1aa".to_owned(),
            accent_bg: "rgba(139, 92, 246, 0.15)".to_owned(),
            accent_bar: "#8560f6".to_owned(),
            glow_color: "rgba(139, 92, 246, 0.12)".to_owned(),
        }
    }
}

/// Whether the window hides when it loses focus, for settings that do not
/// say: it does.
pub fn default_hide_on_blur() -> (b: bool)
    ensures
        b,
{
    true
}

/// The launcher's settings.
#[derive(Clone, Debug)]
pub struct AppConfig {
    pub theme: ThemeColors,
    pub search_paths: Vec<String>,
    pub excluded_dirs: Vec<String>,
    pub excluded_extensions: Vec<String>,
    pub max_depth: usize,
    pub hide_on_blur: bool,
}

/// The mathematical value of an `AppConfig`.
pub struct ConfigView {
    pub theme: ThemeView,
    pub search_paths: Seq<Seq<char>>,
    pub excluded_dirs: Seq<Seq<char>>,
    pub excluded_extensions: Seq<Seq<char>>,
    pub max_depth: usize,
    pub hide_on_blur: bool,
}

impl View for AppConfig {
    type V = ConfigView;

    open spec fn view(&self) -> ConfigView {
        ConfigView {
            theme: self.theme@,
            search_paths: self.search_paths.deep_view(),
            excluded_dirs: self.excluded_dirs.deep_view(),
            excluded_extensions: self.excluded_extensions.deep_view(),
            max_depth: self.max_depth,
            hide_on_blur: self.hide_on_blur,
        }
    }
}

/// Directory names that the indexer never enters by default: build output,
/// caches, package stores, version control and trash.
pub open spec fn default_excluded_dirs() -> Seq<Seq<char>> {
    seq![
        "node_modules"@, ".git"@, ".cache"@, ".cargo"@, ".npm"@, ".rustup"@,
        "target"@, "Trash"@, ".local"@, ".config"@, ".mozilla"@, ".thunderbird"@,
        "__pycache__"@, ".pycache"@, ".venv"@, "venv"@, "env"@, ".env"@,
        ".tox"@, ".mypy_cache"@, ".pytest_cache"@, ".ruff_cache"@,
        "dist"@, "build"@, ".next"@, ".nuxt"@, ".svelte-kit"@,
        ".gradle"@, ".m2"@, ".ivy2"@,
        "vendor"@, "bower_components"@,
        ".steam"@, ".wine"@, "snap"@,
        ".thumbnails"@, ".Trash-1000"@,
    ]
}

/// File extensions that the indexer skips by default: objects, bytecode,
/// archives of compiled code, logs, swap files, minified assets.
pub open spec fn default_excluded_extensions() -> Seq<Seq<char>> {
    seq![
        "o"@, "so"@, "a"@, "dylib"@, "pyc"@, "pyo"@, "class"@, "jar"@,
        "lock"@, "log"@, "tmp"@, "swp"@, "swo"@,
        "min.js"@, "min.css"@, "map"@,
        "whl"@, "egg-info"@,
    ]
}

/// The settings used when none are saved, for the user whose home
/// directory is `home`.
pub open spec fn default_config(home: Seq<char>) -> ConfigView {
    ConfigView {
        theme: default_theme(),
        search_paths: seq![home],
        excluded_dirs: default_excluded_dirs(),
        excluded_extensions: default_excluded_extensions(),
        max_depth: 7,
        hide_on_blur: true,
    }
}

/// Builds a vector of strings from literals, in order.
pub(crate) fn owned_all(items: &[&str]) -> (r: Vec<String>)
    ensures
        r.deep_view() == items@.map_values(|s: &str| s@),
{
    let mut r: Vec<String> = Vec::new();
    let mut i: usize = 0;
    while i < items.len()
        invariant
            i <= items@.len(),
            r@.len() == i,
            forall|k: int| 0 <= k < i ==> #[trigger] r@[k]@ == items@[k]@,
        decreases items@.len() - i,
    {
        let s = items[i].to_owned();
        r.push(s);
        i = i + 1;
    }
    assert(r.deep_view() =~= items@.map_values(|s: &str| s@));
    r
}

impl AppConfig {
    /// The settings used when none are saved: index the home directory
    /// seven levels deep, skip the usual noise, hide on blur.
    pub fn with_home(home: String) -> (r: AppConfig)
        ensures
            r@ == default_config(home@),
    {
        let dirs: [&str; 37] = [
            "node_modules", ".git", ".cache", ".cargo", ".npm", ".rustup",
            "target", "Trash", ".local", ".config", ".mozilla", ".thunderbird",
            "__pycache__", ".pycache", ".venv", "venv", "env", ".env",
            ".tox", ".mypy_cache", ".pytest_cache", ".ruff_cache",
            "dist", "build", ".next", ".nuxt", ".svelte-kit",
            ".gradle", ".m2", ".ivy2",
            "vendor", "bower_components",
            ".steam", ".wine", "snap",
            ".thumbnails", ".Trash-1000",
        ];
        let exts: [&str; 18] = [
            "o", "so", "a", "dylib", "pyc", "pyo", "class", "jar",
            "lock", "log", "tmp", "swp", "swo",
            "min.js", "min.css", "map",
            "whl", "egg-info",
        ];
        let excluded_dirs = owned_all(&dirs);
        let excluded_extensions = owned_all(&exts);
        let mut search_paths: Vec<String> = Vec::new();
        search_paths.push(home);
        let r = AppConfig {
            theme: ThemeColors::default(),
            search_paths,
            excluded_dirs,
            excluded_extensions,
            max_depth: 7,
            hide_on_blur: default_hide_on_blur(),
        };
        assert(r.search_paths.deep_view() =~= seq![home@]);
        assert(r.excluded_dirs.deep_view() =~= default_excluded_dirs());
        assert(r.excluded_extensions.deep_view() =~= default_excluded_extensions());
        r
    }
}

} // verus!
