//! Update checks: the version bookkeeping and the cleaning of installer output.
use vstd::prelude::*;
use crate::desktop::opt_view;
use crate::fuzzy::{is_subseq, lemma_subseq_extend};
use crate::paths::{join_path, path_join};
use crate::text::{chars_of, string_of, trim, trim_chars};

verus! {

/// `c` is an ASCII letter (`char::is_ascii_alphabetic`).
pub open spec fn is_ascii_letter(c: char) -> bool {
    ('A' <= c && c <= 'Z') || ('a' <= c && c <= 'z')
}

/// Where the stripper stands: in plain text, just after an escape
/// character, or inside a control sequence started by escape and `[`.
pub enum AnsiState {
    Text,
    Escape,
    Sequence,
}

/// The characters kept from `s[i..]` when starting in state `st`.
pub open spec fn strip_from(s: Seq<char>, i: int, st: AnsiState) -> Seq<char>
    decreases s.len() - i,
{
    if i < 0 || i >= s.len() {
        seq![]
    } else {
        let c = s[i];
        match st {
            AnsiState::Sequence => if is_ascii_letter(c) {
                strip_from(s, i + 1, AnsiState::Text)
            } else {
                strip_from(s, i + 1, AnsiState::Sequence)
            },
            AnsiState::Escape => if c == '[' {
                strip_from(s, i + 1, AnsiState::Sequence)
            } else if c == '\x1b' {
                strip_from(s, i + 1, AnsiState::Escape)
            } else {
                seq![c] + strip_from(s, i + 1, AnsiState::Text)
            },
            AnsiState::Text => if c == '\x1b' {
                strip_from(s, i + 1, AnsiState::Escape)
            } else {
                seq![c] + strip_from(s, i + 1, AnsiState::Text)
            },
        }
    }
}

/// `s` without escape characters and without the control sequences that
/// an escape and `[` start, each running through its first ASCII letter.
pub open spec fn strip_ansi(s: Seq<char>) -> Seq<char> {
    strip_from(s, 0, AnsiState::Text)
}

/// Removes ANSI escape sequences (colours, cursor moves) from a line of output.
pub fn strip_ansi_codes(input: &str) -> (r: String)
    ensures
        r@ == strip_ansi(input@),
{
    let s = crate::text::chars_of(input);
    let mut out: Vec<char> = Vec::new();
    let mut st = AnsiState::Text;
    let mut i: usize = 0;
    while i < s.len()
        invariant
            i <= s.len(),
            s@ == input@,
            out@ + strip_from(s@, i as int, st) == strip_ansi(input@),
        decreases s.len() - i,
    {
        let c = s[i];
        let ghost before = out@;
        match st {
            AnsiState::Sequence => {
                if ('A' <= c && c <= 'Z') || ('a' <= c && c <= 'z') {
                    st = AnsiState::Text;
                }
            },
            AnsiState::Escape => {
                if c == '[' {
                    st = AnsiState::Sequence;
                } else if c != '\x1b' {
                    out.push(c);
                    assert(before + (seq![c] + strip_from(s@, i + 1, AnsiState::Text)) =~= out@
                        + strip_from(s@, i + 1, AnsiState::Text));
                    st = AnsiState::Text;
                }
            },
            AnsiState::Text => {
                if c == '\x1b' {
                    st = AnsiState::Escape;
                } else {
                    out.push(c);
                    assert(before + (seq![c] + strip_from(s@, i + 1, AnsiState::Text)) =~= out@
                        + strip_from(s@, i + 1, AnsiState::Text));
                }
            },
        }
        i = i + 1;
    }
    assert(out@ + Seq::<char>::empty() =~= out@);
    string_of(out.as_slice())
}

/// What the stripper keeps holds no escape character.
pub proof fn lemma_strip_from_no_escape(s: Seq<char>, i: int, st: AnsiState)
    ensures
        !strip_from(s, i, st).contains('\x1b'),
    decreases s.len() - i,
{
    if i < 0 || i >= s.len() {
    } else {
        let c = s[i];
        match st {
            AnsiState::Sequence => {
                lemma_strip_from_no_escape(s, i + 1, AnsiState::Text);
                lemma_strip_from_no_escape(s, i + 1, AnsiState::Sequence);
            },
            AnsiState::Escape => {
                lemma_strip_from_no_escape(s, i + 1, AnsiState::Sequence);
                lemma_strip_from_no_escape(s, i + 1, AnsiState::Escape);
                lemma_strip_from_no_escape(s, i + 1, AnsiState::Text);
                if c != '[' && c != '\x1b' {
                    let rest = strip_from(s, i + 1, AnsiState::Text);
                    assert(strip_from(s, i, st) =~= seq![c] + rest);
                    assert forall|k: int| 0 <= k < (seq![c] + rest).len() implies (seq![c]
                        + rest)[k] != '\x1b' by {
                        if k > 0 {
                            assert((seq![c] + rest)[k] == rest[k - 1]);
                        }
                    }
                }
            },
            AnsiState::Text => {
                lemma_strip_from_no_escape(s, i + 1, AnsiState::Escape);
                lemma_strip_from_no_escape(s, i + 1, AnsiState::Text);
                if c != '\x1b' {
                    let rest = strip_from(s, i + 1, AnsiState::Text);
                    assert(strip_from(s, i, st) =~= seq![c] + rest);
                    assert forall|k: int| 0 <= k < (seq![c] + rest).len() implies (seq![c]
                        + rest)[k] != '\x1b' by {
                        if k > 0 {
                            assert((seq![c] + rest)[k] == rest[k - 1]);
                        }
                    }
                }
            },
        }
    }
}

/// Text without escape characters passes through the stripper unchanged.
pub proof fn lemma_strip_from_plain(s: Seq<char>, i: int)
    requires
        0 <= i <= s.len(),
        !s.contains('\x1b'),
    ensures
        strip_from(s, i, AnsiState::Text) == s.skip(i),
    decreases s.len() - i,
{
    if i < s.len() {
        assert(s[i] != '\x1b');
        lemma_strip_from_plain(s, i + 1);
        assert(s.skip(i) =~= seq![s[i]] + s.skip(i + 1));
    } else {
        assert(s.skip(i) =~= Seq::<char>::empty());
    }
}

/// What the stripper keeps from `s[i..]` is a subsequence of it.
proof fn lemma_strip_from_subseq(s: Seq<char>, i: int, st: AnsiState)
    requires
        0 <= i <= s.len(),
    ensures
        is_subseq(strip_from(s, i, st), s.skip(i)),
    decreases s.len() - i,
{
    if i < s.len() {
        let c = s[i];
        let t = s.skip(i);
        assert(t.drop_first() =~= s.skip(i + 1));
        assert(t[0] == c);
        lemma_strip_from_subseq(s, i + 1, AnsiState::Text);
        lemma_strip_from_subseq(s, i + 1, AnsiState::Escape);
        lemma_strip_from_subseq(s, i + 1, AnsiState::Sequence);
        let r = strip_from(s, i, st);
        let rest = strip_from(s, i + 1, AnsiState::Text);
        if r =~= seq![c] + rest {
            assert((seq![c] + rest)[0] == c);
            assert((seq![c] + rest).drop_first() =~= rest);
        } else {
            lemma_subseq_extend(r, t);
        }
    } else {
        assert(strip_from(s, i, st) =~= Seq::<char>::empty());
    }
}

/// Stripped output never holds an escape character and keeps the input's
/// other characters in order (a subsequence of it); output without escape
/// characters is left as it is: stripping is idempotent.
pub proof fn law_strip_ansi_clean(s: Seq<char>)
    ensures
        !strip_ansi(s).contains('\x1b'),
        is_subseq(strip_ansi(s), s),
        !s.contains('\x1b') ==> strip_ansi(s) == s,
        strip_ansi(strip_ansi(s)) == strip_ansi(s),
{
    lemma_strip_from_subseq(s, 0, AnsiState::Text);
    assert(s.skip(0) =~= s);
    lemma_strip_from_no_escape(s, 0, AnsiState::Text);
    if !s.contains('\x1b') {
        lemma_strip_from_plain(s, 0);
        assert(s.skip(0) =~= s);
    }
    let t = strip_ansi(s);
    lemma_strip_from_plain(t, 0);
    assert(t.skip(0) =~= t);
}

/// What an update check reports.
#[derive(Clone, Debug)]
pub struct UpdateInfo {
    pub has_update: bool,
    pub current_version: String,
    pub latest_version: String,
    pub repo_path: Option<String>,
}

/// The string value of a top-level key that `serde_json` finds in a JSON
/// text, if the text parses, holds the key, and the value is a string.
pub uninterp spec fn json_str_field(content: Seq<char>, key: Seq<char>) -> Option<Seq<char>>;

/// The string value of the top-level `"version"` key of a JSON text.
pub open spec fn json_version(content: Seq<char>) -> Option<Seq<char>> {
    json_str_field(content, "version"@)
}

/// Parses the text with `serde_json::from_str` into a `serde_json::Value`
/// and reads `get(key)` with `as_str`; the result is named
/// `json_str_field` and depends on the text and the key alone.
#[verifier::external_body]
fn parse_str_field(content: &str, key: &str) -> (r: Option<String>)
    ensures
        opt_view(r) == json_str_field(content@, key@),
{
    let json: serde_json::Value = serde_json::from_str(content).ok()?;
    json.get(key).and_then(|v| v.as_str()).map(|s| s.to_string())
}

/// Calls `String::from_utf8`, which succeeds exactly on valid UTF-8 and
/// then holds the decoded characters.
#[verifier::external_body]
pub(crate) fn string_from_utf8(bytes: Vec<u8>) -> (r: Option<String>)
    ensures
        r is Some <==> vstd::utf8::valid_utf8(bytes@),
        r matches Some(s) ==> s@ == vstd::utf8::decode_utf8(bytes@),
{
    String::from_utf8(bytes).ok()
}

/// The version named in a `package.json` text.
pub fn package_version(content: &str) -> (r: Option<String>)
    ensures
        opt_view(r) == json_version(content@),
{
    parse_str_field(content, "version")
}

/// The version in the output of `git show <branch>:package.json`: none
/// when the command failed or its output is not UTF-8.
pub open spec fn git_output_version(success: bool, stdout: Seq<u8>) -> Option<Seq<char>> {
    if success && vstd::utf8::valid_utf8(stdout) {
        json_version(vstd::utf8::decode_utf8(stdout))
    } else {
        None
    }
}

/// Reads the version from the output of `git show <branch>:package.json`.
pub fn version_from_git_output(success: bool, stdout: Vec<u8>) -> (r: Option<String>)
    ensures
        opt_view(r) == git_output_version(success, stdout@),
{
    if !success {
        return None;
    }
    match string_from_utf8(stdout) {
        Some(text) => package_version(text.as_str()),
        None => None,
    }
}

/// The `package.json` files asked of git for the remote version, in
/// order: the main branch's, then the master branch's.
pub open spec fn package_refs_list() -> Seq<Seq<char>> {
    seq!["origin/main:package.json"@, "origin/master:package.json"@]
}

/// The references given to `git show` for the remote version.
pub fn package_refs() -> (r: Vec<String>)
    ensures
        r.deep_view() == package_refs_list(),
{
    let refs: [&str; 2] = ["origin/main:package.json", "origin/master:package.json"];
    let r = crate::config::owned_all(&refs);
    assert(r.deep_view() =~= package_refs_list());
    r
}

/// The first version found in the outputs of `git show`, in order.
pub open spec fn first_version(outputs: Seq<(bool, Seq<u8>)>) -> Option<Seq<char>>
    decreases outputs.len(),
{
    if outputs.len() == 0 {
        None
    } else {
        match git_output_version(outputs[0].0, outputs[0].1) {
            Some(v) => Some(v),
            None => first_version(outputs.drop_first()),
        }
    }
}

/// The remote version: the first found in the outputs (success, stdout)
/// of `git show` on the references of `package_refs`, in order.
pub fn remote_version(outputs: Vec<(bool, Vec<u8>)>) -> (r: Option<String>)
    ensures
        opt_view(r) == first_version(outputs.deep_view()),
{
    let ghost all = outputs.deep_view();
    let mut rest = outputs;
    let n = rest.len();
    let mut i: usize = 0;
    assert(rest.deep_view() =~= all.skip(0));
    while i < n
        invariant
            n == all.len(),
            i <= n,
            rest.deep_view() =~= all.skip(i as int),
            first_version(all) == first_version(all.skip(i as int)),
            all == outputs.deep_view(),
        decreases n - i,
    {
        let ghost before = rest.deep_view();
        let ghost old_rest = rest@;
        assert(before.len() == n - i);
        let (ok, out) = rest.remove(0);
        assert(ok == before[0].0 && out@ == before[0].1);
        assert forall|k: int| 0 <= k < rest.len() implies #[trigger] rest.deep_view()[k] == all.skip(
            i + 1,
        )[k] by {
            assert(rest@[k] == old_rest[k + 1]);
            assert(before[k + 1] == all[i + 1 + k]);
        }
        assert(all.skip(i as int).drop_first() =~= all.skip(i + 1));
        assert(all.skip(i as int)[0] == before[0]);
        let v = version_from_git_output(ok, out);
        if v.is_some() {
            return v;
        }
        i = i + 1;
    }
    None
}

/// The installed version: the trimmed contents of the version file, or
/// `1.0.1` when there is none.
pub open spec fn installed_version(file: Option<Seq<char>>) -> Seq<char> {
    match file {
        Some(t) => trim(t),
        None => "1.0.1"@,
    }
}

/// The installed version from the version file's contents, if it could be read.
pub fn current_version(file: Option<String>) -> (r: String)
    ensures
        r@ == installed_version(opt_view(file)),
{
    match file {
        Some(t) => {
            let c = chars_of(t.as_str());
            let tr = trim_chars(&c);
            string_of(tr.as_slice())
        },
        None => "1.0.1".to_owned(),
    }
}

/// The source repository path: the trimmed contents of its file.
pub fn repo_path_of(file: Option<String>) -> (r: Option<String>)
    ensures
        opt_view(r) == match opt_view(file) {
            Some(t) => Some(trim(t)),
            None => None,
        },
{
    match file {
        Some(t) => {
            let c = chars_of(t.as_str());
            let tr = trim_chars(&c);
            Some(string_of(tr.as_slice()))
        },
        None => None,
    }
}

/// The latest version: with a repository, the remote version, else the
/// local one, else the installed one; without a repository, the installed one.
pub open spec fn latest_version_of(
    current: Seq<char>,
    repo: Option<Seq<char>>,
    remote: Option<Seq<char>>,
    local: Option<Seq<char>>,
) -> Seq<char> {
    if repo is Some {
        match remote {
            Some(v) => v,
            None => match local {
                Some(v) => v,
                None => current,
            },
        }
    } else {
        current
    }
}

/// Assembles the update report: the latest version as `latest_version_of`
/// says, and an update exactly when there is a repository and the latest
/// version differs from the installed one.
pub fn update_info(
    current: String,
    repo_path: Option<String>,
    remote: Option<String>,
    local: Option<String>,
) -> (r: UpdateInfo)
    ensures
        r.current_version@ == current@,
        opt_view(r.repo_path) == opt_view(repo_path),
        r.latest_version@ == latest_version_of(
            current@,
            opt_view(repo_path),
            opt_view(remote),
            opt_view(local),
        ),
        r.has_update == (repo_path is Some && r.latest_version@ != current@),
{
    let latest = if repo_path.is_some() {
        match remote {
            Some(v) => v,
            None => match local {
                Some(v) => v,
                None => current.clone(),
            },
        }
    } else {
        current.clone()
    };
    let has_update = repo_path.is_some() && latest != current;
    UpdateInfo { has_update, current_version: current, latest_version: latest, repo_path }
}


/// What the running update tells the settings window.
#[derive(Clone, Debug)]
pub enum UpdateNotice {
    /// A line for the update log; system lines are the updater's own.
    Log { message: String, is_system: bool },
    /// The update was installed.
    Complete,
    /// The update failed, with the reason.
    Failed(String),
}

/// The mathematical value of an `UpdateNotice`.
pub enum NoticeView {
    Log(Seq<char>, bool),
    Complete,
    Failed(Seq<char>),
}

impl View for UpdateNotice {
    type V = NoticeView;

    open spec fn view(&self) -> NoticeView {
        match self {
            UpdateNotice::Log { message, is_system } => NoticeView::Log(message@, *is_system),
            UpdateNotice::Complete => NoticeView::Complete,
            UpdateNotice::Failed(m) => NoticeView::Failed(m@),
        }
    }
}

impl DeepView for UpdateNotice {
    type V = NoticeView;

    open spec fn deep_view(&self) -> NoticeView {
        self@
    }
}

/// What happened while updating.
#[derive(Clone, Debug)]
pub enum UpdateEvent {
    /// The update began.
    Started,
    /// `git pull` ended, successfully or not.
    PullFinished(bool),
    /// The installer could not be started, for the reason given.
    InstallerNotStarted(String),
    /// The installer printed a line.
    InstallerOutput(String),
    /// The installer ended, successfully or not.
    InstallerFinished(bool),
}

/// The mathematical value of an `UpdateEvent`.
pub enum EventView {
    Started,
    PullFinished(bool),
    InstallerNotStarted(Seq<char>),
    InstallerOutput(Seq<char>),
    InstallerFinished(bool),
}

impl View for UpdateEvent {
    type V = EventView;

    open spec fn view(&self) -> EventView {
        match self {
            UpdateEvent::Started => EventView::Started,
            UpdateEvent::PullFinished(b) => EventView::PullFinished(*b),
            UpdateEvent::InstallerNotStarted(m) => EventView::InstallerNotStarted(m@),
            UpdateEvent::InstallerOutput(l) => EventView::InstallerOutput(l@),
            UpdateEvent::InstallerFinished(b) => EventView::InstallerFinished(*b),
        }
    }
}

/// The notices for each event: the updater's own log lines, the
/// installer's lines without escape sequences, and the final outcome.
pub open spec fn notices_for(e: EventView) -> Seq<NoticeView> {
    match e {
        EventView::Started => seq![
            NoticeView::Log("Starting update process..."@, true),
            NoticeView::Log("Pulling latest changes from git repository..."@, true),
        ],
        EventView::PullFinished(ok) => seq![
            if ok {
                NoticeView::Log("Git pull completed successfully."@, true)
            } else {
                NoticeView::Log("Warning: Git pull failed or repository has no remote."@, true)
            },
            NoticeView::Log("Running install script..."@, true),
        ],
        EventView::InstallerNotStarted(why) => {
            let m = "Failed to start installer script: "@ + why;
            seq![NoticeView::Log(m, true), NoticeView::Failed(m)]
        },
        EventView::InstallerOutput(line) => seq![NoticeView::Log(strip_ansi(line), false)],
        EventView::InstallerFinished(ok) => if ok {
            seq![
                NoticeView::Log("Auto-update successfully built and installed!"@, true),
                NoticeView::Log("Launching updated SpotSearch and exiting in 2 seconds..."@, true),
                NoticeView::Complete,
            ]
        } else {
            seq![
                NoticeView::Log("Error: Auto-update failed to build or install."@, true),
                NoticeView::Failed("Auto-update failed to build or install."@),
            ]
        },
    }
}

/// A system log line.
fn system_log(message: &str) -> (n: UpdateNotice)
    ensures
        n@ == NoticeView::Log(message@, true),
{
    UpdateNotice::Log { message: message.to_owned(), is_system: true }
}

/// Decides what an update event tells the settings window.
pub fn update_notices(event: UpdateEvent) -> (r: Vec<UpdateNotice>)
    ensures
        r.deep_view() == notices_for(event@),
{
    let mut r: Vec<UpdateNotice> = Vec::new();
    match event {
        UpdateEvent::Started => {
            r.push(system_log("Starting update process..."));
            r.push(system_log("Pulling latest changes from git repository..."));
        },
        UpdateEvent::PullFinished(ok) => {
            if ok {
                r.push(system_log("Git pull completed successfully."));
            } else {
                r.push(system_log("Warning: Git pull failed or repository has no remote."));
            }
            r.push(system_log("Running install script..."));
        },
        UpdateEvent::InstallerNotStarted(why) => {
            let m = crate::text::concat_str("Failed to start installer script: ", why.as_str());
            r.push(system_log(m.as_str()));
            r.push(UpdateNotice::Failed(m));
        },
        UpdateEvent::InstallerOutput(line) => {
            let cleaned = strip_ansi_codes(line.as_str());
            r.push(UpdateNotice::Log { message: cleaned, is_system: false });
        },
        UpdateEvent::InstallerFinished(ok) => {
            if ok {
                r.push(system_log("Auto-update successfully built and installed!"));
                r.push(system_log("Launching updated SpotSearch and exiting in 2 seconds..."));
                r.push(UpdateNotice::Complete);
            } else {
                r.push(system_log("Error: Auto-update failed to build or install."));
                r.push(UpdateNotice::Failed("Auto-update failed to build or install.".to_owned()));
            }
        },
    }
    assert(r.deep_view() =~= notices_for(event@));
    r
}

/// The installer script of a source checkout: `install.sh` at its root.
pub fn installer_script_path(repo_path: &str) -> (r: String)
    ensures
        r@ == path_join(repo_path@, "install.sh"@),
{
    join_path(repo_path, "install.sh")
}

/// The installed launcher, started again after an update:
/// `.local/bin/spotsearch` under the home directory.
pub fn relaunch_path(home: &str) -> (r: String)
    ensures
        r@ == path_join(home@, ".local/bin/spotsearch"@),
{
    join_path(home, ".local/bin/spotsearch")
}

} // verus!
