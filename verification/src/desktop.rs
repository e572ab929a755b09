//! Desktop entries (`*.desktop` files): parsing the `[Desktop Entry]`
//! group into an application record.
use vstd::prelude::*;
use crate::text::{
    chars_of, has_prefix, is_lit, lines, lines_chars, lower_chars, lowercase, replace_all,
    replace_chars, split_char, split_char_chars, split_once, split_once_chars, starts_with,
    string_of, trim, trim_chars,
};
use crate::index::{lex_le, lex_le_exec};
use crate::order::{insert_stable, lemma_insert_at, sort_stable};
use crate::paths::{
    app_dir_candidates, collect_existing, extension_of, is_desktop_file, law_application_dirs_distinct, same_path,
};

verus! {

/// The fields gathered while reading the lines of a desktop file.
pub struct EntryModel {
    pub name: Seq<char>,
    pub command: Seq<char>,
    pub icon: Option<Seq<char>>,
    pub hidden: bool,
    pub nodisplay: bool,
    pub terminal: bool,
    pub categories: Option<Seq<char>>,
    pub keywords: Option<Seq<char>>,
    pub generic_name: Option<Seq<char>>,
    pub in_entry: bool,
}

/// Nothing gathered yet, outside any group.
pub open spec fn empty_model() -> EntryModel {
    EntryModel {
        name: seq![],
        command: seq![],
        icon: None,
        hidden: false,
        nodisplay: false,
        terminal: false,
        categories: None,
        keywords: None,
        generic_name: None,
        in_entry: false,
    }
}

/// An `Exec=` value without the field codes `%u %U %f %F %c %k`
/// (removed in that order) and without surrounding whitespace.
pub open spec fn clean_exec(v: Seq<char>) -> Seq<char> {
    trim(
        replace_all(
            replace_all(
                replace_all(
                    replace_all(
                        replace_all(replace_all(v, "%u"@, seq![]), "%U"@, seq![]),
                        "%f"@,
                        seq![],
                    ),
                    "%F"@,
                    seq![],
                ),
                "%c"@,
                seq![],
            ),
            "%k"@,
            seq![],
        ),
    )
}

/// A category that says something about the application.
pub open spec fn meaningful_category(c: Seq<char>) -> bool {
    c.len() > 0 && c != "Application"@ && c != "GNOME"@ && c != "GTK"@ && c != "KDE"@ && c != "Qt"@
}

/// The first meaningful piece, or the empty sequence.
pub open spec fn first_category(pieces: Seq<Seq<char>>) -> Seq<char>
    decreases pieces.len(),
{
    if pieces.len() == 0 {
        seq![]
    } else if meaningful_category(pieces[0]) {
        pieces[0]
    } else {
        first_category(pieces.drop_first())
    }
}

/// A `Terminal=` value, trimmed and lowercased, reads as true.
pub open spec fn terminal_value(v: Seq<char>) -> bool {
    v == "true"@ || v == "1"@
}

/// What a line inside the `[Desktop Entry]` group does to the fields: the
/// first non-empty `Name=` and `Exec=`, the first `Icon=`, `Categories=`,
/// `Keywords`, `GenericName` win; `Hidden=true`, `NoDisplay=true` set their
/// flags; the last `Terminal=` wins.
pub open spec fn apply_key(m: EntryModel, line: Seq<char>) -> EntryModel {
    if has_prefix(line, "Name="@) && m.name.len() == 0 {
        EntryModel { name: line.skip(5), ..m }
    } else if has_prefix(line, "Exec="@) && m.command.len() == 0 {
        EntryModel { command: clean_exec(line.skip(5)), ..m }
    } else if has_prefix(line, "Icon="@) && m.icon is None {
        EntryModel { icon: Some(line.skip(5)), ..m }
    } else if has_prefix(line, "Hidden=true"@) {
        EntryModel { hidden: true, ..m }
    } else if has_prefix(line, "NoDisplay=true"@) {
        EntryModel { nodisplay: true, ..m }
    } else if has_prefix(line, "Terminal="@) {
        EntryModel { terminal: terminal_value(lowercase(trim(line.skip(9)))), ..m }
    } else if has_prefix(line, "Categories="@) && m.categories is None {
        let cat = first_category(split_char(line.skip(11), ';'));
        if cat.len() > 0 {
            EntryModel { categories: Some(cat), ..m }
        } else {
            m
        }
    } else if (has_prefix(line, "Keywords="@) || has_prefix(line, "Keywords["@))
        && m.keywords is None {
        match split_once(line, '=') {
            Some((_, v)) => EntryModel { keywords: Some(v), ..m },
            None => m,
        }
    } else if (has_prefix(line, "GenericName="@) || has_prefix(line, "GenericName["@))
        && m.generic_name is None {
        match split_once(line, '=') {
            Some((_, v)) => EntryModel { generic_name: Some(v), ..m },
            None => m,
        }
    } else {
        m
    }
}

/// What one line does: `[Desktop Entry]` opens the group, any other line
/// starting with `[` closes it, and keys count only inside it.
pub open spec fn step(m: EntryModel, line: Seq<char>) -> EntryModel {
    if line == "[Desktop Entry]"@ {
        EntryModel { in_entry: true, ..m }
    } else {
        let m1 = if has_prefix(line, "["@) {
            EntryModel { in_entry: false, ..m }
        } else {
            m
        };
        if !m1.in_entry {
            m1
        } else {
            apply_key(m1, line)
        }
    }
}

/// The fields gathered from a sequence of lines.
pub open spec fn gather(ls: Seq<Seq<char>>) -> EntryModel
    decreases ls.len(),
{
    if ls.len() == 0 {
        empty_model()
    } else {
        step(gather(ls.drop_last()), ls.last())
    }
}

/// The entry of a desktop file's text: `None` when it has no name, no
/// command, or is hidden or not to be displayed.
pub open spec fn parse_entry(content: Seq<char>) -> Option<EntryModel> {
    let m = gather(lines(content));
    if m.name.len() == 0 || m.command.len() == 0 || m.hidden || m.nodisplay {
        None
    } else {
        Some(m)
    }
}

/// Once an entry is marked hidden or not to be displayed, later lines do
/// not clear the mark.
proof fn lemma_gather_marks_stay(ls: Seq<Seq<char>>, j: int)
    requires
        0 <= j <= ls.len(),
    ensures
        gather(ls.take(j)).hidden ==> gather(ls).hidden,
        gather(ls.take(j)).nodisplay ==> gather(ls).nodisplay,
    decreases ls.len() - j,
{
    if j < ls.len() {
        assert(ls.take(j + 1).drop_last() =~= ls.take(j));
        assert(ls.take(j + 1).last() == ls[j]);
        lemma_gather_marks_stay(ls, j + 1);
    } else {
        assert(ls.take(j) =~= ls);
    }
}

/// A desktop file whose `[Desktop Entry]` group holds a `Hidden=true` or
/// `NoDisplay=true` line gives no application.
pub proof fn law_hidden_entries_not_listed(content: Seq<char>, k: int)
    requires
        0 <= k < lines(content).len(),
        gather(lines(content).take(k)).in_entry,
        has_prefix(lines(content)[k], "Hidden=true"@) || has_prefix(lines(content)[k], "NoDisplay=true"@),
    ensures
        parse_entry(content) is None,
{
    let ls = lines(content);
    let line = ls[k];
    reveal_strlit("Hidden=true");
    reveal_strlit("NoDisplay=true");
    reveal_strlit("Name=");
    reveal_strlit("Exec=");
    reveal_strlit("Icon=");
    reveal_strlit("[Desktop Entry]");
    reveal_strlit("[");
    if has_prefix(line, "Hidden=true"@) {
        assert(line[0] == line.subrange(0, 11)[0]);
        assert(line[0] == 'H');
    } else {
        assert(line[0] == line.subrange(0, 14)[0]);
        assert(line[1] == line.subrange(0, 14)[1]);
        assert(line[0] == 'N' && line[1] == 'o');
        assert(!has_prefix(line, "Name="@)) by {
            if has_prefix(line, "Name="@) {
                assert(line[1] == line.subrange(0, 5)[1]);
            }
        }
    }
    assert(!has_prefix(line, "["@)) by {
        if has_prefix(line, "["@) {
            assert(line[0] == line.subrange(0, 1)[0]);
        }
    }
    assert(!has_prefix(line, "Exec="@)) by {
        if has_prefix(line, "Exec="@) {
            assert(line[0] == line.subrange(0, 5)[0]);
        }
    }
    assert(!has_prefix(line, "Icon="@)) by {
        if has_prefix(line, "Icon="@) {
            assert(line[0] == line.subrange(0, 5)[0]);
        }
    }
    assert(line != "[Desktop Entry]"@) by {
        assert("[Desktop Entry]"@[0] == '[');
    }
    assert(ls.take(k + 1).drop_last() =~= ls.take(k));
    assert(ls.take(k + 1).last() == line);
    let m = gather(ls.take(k + 1));
    assert(m.hidden || m.nodisplay);
    lemma_gather_marks_stay(ls, k + 1);
}

/// Every entry given has a name and a command and is neither hidden nor
/// marked not to be displayed.
pub proof fn law_listed_entries_complete(content: Seq<char>)
    ensures
        parse_entry(content) matches Some(m) ==> m.name.len() > 0 && m.command.len() > 0 && !m.hidden
            && !m.nodisplay,
{
}

/// A category piece that names a toolkit or desktop, or nothing: empty,
/// `Application`, `GNOME`, `GTK`, `KDE` or `Qt`.
pub open spec fn generic_category(c: Seq<char>) -> bool {
    c.len() == 0 || c == "Application"@ || c == "GNOME"@ || c == "GTK"@ || c == "KDE"@ || c == "Qt"@
}

/// The category taken from a `Categories=` value's pieces is the first
/// piece that is not generic (not empty, `Application`, `GNOME`, `GTK`,
/// `KDE` or `Qt`), or empty when every piece is generic.
pub proof fn law_first_category(pieces: Seq<Seq<char>>)
    ensures
        first_category(pieces).len() == 0 ==> forall|i: int| 0 <= i < pieces.len() ==> generic_category(
            #[trigger] pieces[i],
        ),
        first_category(pieces).len() > 0 ==> exists|i: int|
            0 <= i < pieces.len() && #[trigger] pieces[i] == first_category(pieces) && !generic_category(pieces[i])
                && forall|j: int| 0 <= j < i ==> generic_category(#[trigger] pieces[j]),
    decreases pieces.len(),
{
    if pieces.len() > 0 {
        let t = pieces.drop_first();
        law_first_category(t);
        if !meaningful_category(pieces[0]) {
            if first_category(t).len() == 0 {
                assert forall|i: int| 0 <= i < pieces.len() implies generic_category(#[trigger] pieces[i]) by {
                    if i > 0 {
                        assert(pieces[i] == t[i - 1]);
                    }
                }
            } else {
                let i = choose|i: int| 0 <= i < t.len() && #[trigger] t[i] == first_category(t)
                    && !generic_category(t[i]) && forall|j: int| 0 <= j < i ==> generic_category(#[trigger] t[j]);
                assert(pieces[i + 1] == t[i]);
                assert forall|j: int| 0 <= j < i + 1 implies generic_category(#[trigger] pieces[j]) by {
                    if j > 0 {
                        assert(pieces[j] == t[j - 1]);
                    }
                }
            }
        }
    }
}

/// The fields gathered from any lines never hold a generic category.
proof fn lemma_gather_category(ls: Seq<Seq<char>>)
    ensures
        gather(ls).categories matches Some(c) ==> !generic_category(c),
    decreases ls.len(),
{
    if ls.len() > 0 {
        lemma_gather_category(ls.drop_last());
        let line = ls.last();
        if has_prefix(line, "Categories="@) {
            let pieces = split_char(line.skip(11), ';');
            law_first_category(pieces);
        }
    }
}

/// An entry's category is never generic: it is not empty and not
/// `Application`, `GNOME`, `GTK`, `KDE` or `Qt`.
pub proof fn law_category_not_generic(content: Seq<char>)
    ensures
        parse_entry(content) matches Some(m) ==> (m.categories matches Some(c) ==> !generic_category(c)),
{
    lemma_gather_category(lines(content));
}

/// The fields of an application entry read from a desktop file.
#[derive(Clone, Debug)]
pub struct DesktopEntry {
    pub name: String,
    pub command: String,
    pub icon_name: Option<String>,
    pub categories: Option<String>,
    pub keywords: Option<String>,
    pub generic_name: Option<String>,
    pub terminal: bool,
}

/// The view of an optional string.
pub open spec fn opt_view(o: Option<String>) -> Option<Seq<char>> {
    match o {
        Some(s) => Some(s@),
        None => None,
    }
}

/// The view of an optional character vector.
pub open spec fn opt_chars(o: Option<Vec<char>>) -> Option<Seq<char>> {
    match o {
        Some(s) => Some(s@),
        None => None,
    }
}

impl DesktopEntry {
    /// The entry agrees with a gathered model.
    pub open spec fn matches(&self, m: EntryModel) -> bool {
        &&& self.name@ == m.name
        &&& self.command@ == m.command
        &&& opt_view(self.icon_name) == m.icon
        &&& opt_view(self.categories) == m.categories
        &&& opt_view(self.keywords) == m.keywords
        &&& opt_view(self.generic_name) == m.generic_name
        &&& self.terminal == m.terminal
    }
}

/// The fields while reading, as character vectors.
struct EntryState {
    name: Vec<char>,
    command: Vec<char>,
    icon: Option<Vec<char>>,
    hidden: bool,
    nodisplay: bool,
    terminal: bool,
    categories: Option<Vec<char>>,
    keywords: Option<Vec<char>>,
    generic_name: Option<Vec<char>>,
    in_entry: bool,
}

impl EntryState {
    spec fn model(&self) -> EntryModel {
        EntryModel {
            name: self.name@,
            command: self.command@,
            icon: opt_chars(self.icon),
            hidden: self.hidden,
            nodisplay: self.nodisplay,
            terminal: self.terminal,
            categories: opt_chars(self.categories),
            keywords: opt_chars(self.keywords),
            generic_name: opt_chars(self.generic_name),
            in_entry: self.in_entry,
        }
    }
}

/// Removes one field code from a command line.
fn remove_code(v: &Vec<char>, code: &str) -> (r: Vec<char>)
    requires
        code@.len() > 0,
    ensures
        r@ == replace_all(v@, code@, seq![]),
{
    let p = chars_of(code);
    let empty: Vec<char> = Vec::new();
    assert(empty@ =~= Seq::<char>::empty());
    replace_chars(v, &p, &empty)
}

/// Cleans an `Exec=` value.
fn clean_exec_exec(v: &Vec<char>) -> (r: Vec<char>)
    ensures
        r@ == clean_exec(v@),
{
    proof {
        reveal_strlit("%u");
        reveal_strlit("%U");
        reveal_strlit("%f");
        reveal_strlit("%F");
        reveal_strlit("%c");
        reveal_strlit("%k");
    }
    let a = remove_code(v, "%u");
    let b = remove_code(&a, "%U");
    let c = remove_code(&b, "%f");
    let d = remove_code(&c, "%F");
    let e = remove_code(&d, "%c");
    let f = remove_code(&e, "%k");
    trim_chars(&f)
}

/// Picks the first meaningful category of a `Categories=` value.
fn first_category_exec(pieces: &Vec<Vec<char>>) -> (r: Vec<char>)
    ensures
        r@ == first_category(pieces.deep_view()),
{
    let mut i: usize = 0;
    assert(pieces.deep_view().skip(0) =~= pieces.deep_view());
    while i < pieces.len()
        invariant
            i <= pieces.len(),
            first_category(pieces.deep_view()) == first_category(pieces.deep_view().skip(i as int)),
        decreases pieces.len() - i,
    {
        let p = &pieces[i];
        assert(pieces.deep_view().skip(i as int)[0] =~= p@);
        assert(pieces.deep_view().skip(i as int).drop_first() =~= pieces.deep_view().skip(i + 1));
        if p.len() > 0 && !is_lit(p, "Application") && !is_lit(p, "GNOME") && !is_lit(p, "GTK")
            && !is_lit(p, "KDE") && !is_lit(p, "Qt") {
            return p.clone();
        }
        i = i + 1;
    }
    Vec::new()
}

/// The value after the first `=` of a line, if it has one.
fn value_after_eq(line: &Vec<char>) -> (r: Option<Vec<char>>)
    ensures
        match split_once(line@, '=') {
            Some((_, v)) => r matches Some(x) && x@ == v,
            None => r is None,
        },
{
    match split_once_chars(line, '=') {
        Some((_, v)) => Some(v),
        None => None,
    }
}

/// Whether a line starts with the given key.
fn line_has(line: &Vec<char>, key: &str) -> (b: bool)
    ensures
        b == has_prefix(line@, key@),
{
    let k = chars_of(key);
    starts_with(line, &k)
}

/// Applies a key line inside the group.
fn apply_key_exec(st: &mut EntryState, line: &Vec<char>)
    ensures
        final(st).model() == apply_key(old(st).model(), line@),
{
    proof {
        reveal_strlit("Name=");
        reveal_strlit("Exec=");
        reveal_strlit("Icon=");
        reveal_strlit("Terminal=");
        reveal_strlit("Categories=");
    }
    if line_has(line, "Name=") && st.name.len() == 0 {
        st.name = crate::text::sub_chars(line, 5, line.len());
        assert(st.name@ =~= line@.skip(5));
    } else if line_has(line, "Exec=") && st.command.len() == 0 {
        let v = crate::text::sub_chars(line, 5, line.len());
        assert(v@ =~= line@.skip(5));
        st.command = clean_exec_exec(&v);
    } else if line_has(line, "Icon=") && st.icon.is_none() {
        let v = crate::text::sub_chars(line, 5, line.len());
        assert(v@ =~= line@.skip(5));
        st.icon = Some(v);
    } else if line_has(line, "Hidden=true") {
        st.hidden = true;
    } else if line_has(line, "NoDisplay=true") {
        st.nodisplay = true;
    } else if line_has(line, "Terminal=") {
        let v = crate::text::sub_chars(line, 9, line.len());
        assert(v@ =~= line@.skip(9));
        let t = trim_chars(&v);
        let ts = string_of(t.as_slice());
        let l = lower_chars(ts.as_str());
        st.terminal = is_lit(&l, "true") || is_lit(&l, "1");
    } else if line_has(line, "Categories=") && st.categories.is_none() {
        let v = crate::text::sub_chars(line, 11, line.len());
        assert(v@ =~= line@.skip(11));
        let pieces = split_char_chars(&v, ';');
        let cat = first_category_exec(&pieces);
        if cat.len() > 0 {
            st.categories = Some(cat);
        }
    } else if (line_has(line, "Keywords=") || line_has(line, "Keywords["))
        && st.keywords.is_none() {
        match value_after_eq(line) {
            Some(v) => {
                st.keywords = Some(v);
            },
            None => {},
        }
    } else if (line_has(line, "GenericName=") || line_has(line, "GenericName["))
        && st.generic_name.is_none() {
        match value_after_eq(line) {
            Some(v) => {
                st.generic_name = Some(v);
            },
            None => {},
        }
    }
}

/// Applies one line.
fn step_exec(st: &mut EntryState, line: &Vec<char>)
    ensures
        final(st).model() == step(old(st).model(), line@),
{
    if is_lit(line, "[Desktop Entry]") {
        st.in_entry = true;
        return;
    }
    if line_has(line, "[") {
        st.in_entry = false;
    }
    if st.in_entry {
        apply_key_exec(st, line);
    }
}

/// Parses the text of a desktop file: the `[Desktop Entry]` group's name,
/// command (without field codes), icon, first meaningful category,
/// keywords, generic name and terminal flag; `None` when the entry has no
/// name or command or is marked hidden or not to be displayed.
pub fn parse_desktop_file(content: &str) -> (r: Option<DesktopEntry>)
    ensures
        match parse_entry(content@) {
            Some(m) => r matches Some(e) && e.matches(m),
            None => r is None,
        },
{
    let text = chars_of(content);
    let ls = lines_chars(&text);
    let mut st = EntryState {
        name: Vec::new(),
        command: Vec::new(),
        icon: None,
        hidden: false,
        nodisplay: false,
        terminal: false,
        categories: None,
        keywords: None,
        generic_name: None,
        in_entry: false,
    };
    assert(st.model() =~= empty_model()) by {
        assert(st.name@ =~= Seq::<char>::empty());
        assert(st.command@ =~= Seq::<char>::empty());
    }
    let mut i: usize = 0;
    while i < ls.len()
        invariant
            i <= ls.len(),
            ls.deep_view() == lines(content@),
            st.model() == gather(ls.deep_view().take(i as int)),
        decreases ls.len() - i,
    {
        assert(ls.deep_view().take(i + 1).drop_last() =~= ls.deep_view().take(i as int));
        assert(ls.deep_view()[i as int] =~= ls[i as int]@);
        step_exec(&mut st, &ls[i]);
        i = i + 1;
    }
    assert(ls.deep_view().take(ls.len() as int) =~= ls.deep_view());
    if st.name.len() == 0 || st.command.len() == 0 || st.hidden || st.nodisplay {
        return None;
    }
    Some(
        DesktopEntry {
            name: string_of(st.name.as_slice()),
            command: string_of(st.command.as_slice()),
            icon_name: match st.icon {
                Some(v) => Some(string_of(v.as_slice())),
                None => None,
            },
            categories: match st.categories {
                Some(v) => Some(string_of(v.as_slice())),
                None => None,
            },
            keywords: match st.keywords {
                Some(v) => Some(string_of(v.as_slice())),
                None => None,
            },
            generic_name: match st.generic_name {
                Some(v) => Some(string_of(v.as_slice())),
                None => None,
            },
            terminal: st.terminal,
        },
    )
}

/// An application found in a desktop file, with lowercase copies of the
/// fields that searches look at.
#[derive(Clone, Debug)]
pub struct AppResult {
    pub name: String,
    pub command: String,
    pub icon_data: Option<String>,
    pub desktop_file: String,
    pub categories: Option<String>,
    pub keywords: Option<String>,
    pub generic_name: Option<String>,
    pub terminal: bool,
    pub name_lower: String,
    pub exec_lower: String,
    pub desktop_file_lower: String,
    pub keywords_lower: String,
    pub generic_name_lower: String,
}

/// The mathematical value of an `AppResult`.
pub struct AppView {
    pub name: Seq<char>,
    pub command: Seq<char>,
    pub icon_data: Option<Seq<char>>,
    pub desktop_file: Seq<char>,
    pub categories: Option<Seq<char>>,
    pub keywords: Option<Seq<char>>,
    pub generic_name: Option<Seq<char>>,
    pub terminal: bool,
    pub name_lower: Seq<char>,
    pub exec_lower: Seq<char>,
    pub desktop_file_lower: Seq<char>,
    pub keywords_lower: Seq<char>,
    pub generic_name_lower: Seq<char>,
}

impl View for AppResult {
    type V = AppView;

    open spec fn view(&self) -> AppView {
        AppView {
            name: self.name@,
            command: self.command@,
            icon_data: opt_view(self.icon_data),
            desktop_file: self.desktop_file@,
            categories: opt_view(self.categories),
            keywords: opt_view(self.keywords),
            generic_name: opt_view(self.generic_name),
            terminal: self.terminal,
            name_lower: self.name_lower@,
            exec_lower: self.exec_lower@,
            desktop_file_lower: self.desktop_file_lower@,
            keywords_lower: self.keywords_lower@,
            generic_name_lower: self.generic_name_lower@,
        }
    }
}

impl DeepView for AppResult {
    type V = AppView;

    open spec fn deep_view(&self) -> AppView {
        self@
    }
}

/// The value inside, or the empty sequence.
pub open spec fn or_empty(o: Option<Seq<char>>) -> Seq<char> {
    match o {
        Some(s) => s,
        None => seq![],
    }
}

/// The application record of a parsed entry read from `desktop_file`.
pub open spec fn app_of(m: EntryModel, desktop_file: Seq<char>, icon_data: Option<Seq<char>>) -> AppView {
    AppView {
        name: m.name,
        command: m.command,
        icon_data: icon_data,
        desktop_file: desktop_file,
        categories: m.categories,
        keywords: m.keywords,
        generic_name: m.generic_name,
        terminal: m.terminal,
        name_lower: lowercase(m.name),
        exec_lower: lowercase(m.command),
        desktop_file_lower: lowercase(desktop_file),
        keywords_lower: lowercase(or_empty(m.keywords)),
        generic_name_lower: lowercase(or_empty(m.generic_name)),
    }
}

/// Lowercases an optional string, an absent one counting as empty.
fn lower_or_empty(o: &Option<String>) -> (r: String)
    ensures
        r@ == lowercase(or_empty(opt_view(*o))),
{
    match o {
        Some(s) => crate::text::to_lowercase(s.as_str()),
        None => {
            let e = String::new();
            crate::text::to_lowercase(e.as_str())
        },
    }
}

/// Builds the application record of a parsed entry, given the desktop
/// file's path and the icon's data URI.
pub fn app_result(entry: DesktopEntry, desktop_file: &str, icon_data: Option<String>) -> (r: AppResult)
    ensures
        forall|m: EntryModel| entry.matches(m) ==> r@ == app_of(m, desktop_file@, opt_view(icon_data)),
{
    let name_lower = crate::text::to_lowercase(entry.name.as_str());
    let exec_lower = crate::text::to_lowercase(entry.command.as_str());
    let desktop_file_lower = crate::text::to_lowercase(desktop_file);
    let keywords_lower = lower_or_empty(&entry.keywords);
    let generic_name_lower = lower_or_empty(&entry.generic_name);
    AppResult {
        name: entry.name,
        command: entry.command,
        icon_data,
        desktop_file: desktop_file.to_owned(),
        categories: entry.categories,
        keywords: entry.keywords,
        generic_name: entry.generic_name,
        terminal: entry.terminal,
        name_lower,
        exec_lower,
        desktop_file_lower,
        keywords_lower,
        generic_name_lower,
    }
}

/// The records of `apps` whose name no earlier record has.
pub open spec fn first_by_name(apps: Seq<AppView>) -> Seq<AppView>
    decreases apps.len(),
{
    if apps.len() == 0 {
        seq![]
    } else {
        let kept = first_by_name(apps.drop_last());
        if exists|i: int| 0 <= i < apps.len() - 1 && (#[trigger] apps[i]).name == apps.last().name {
            kept
        } else {
            kept.push(apps.last())
        }
    }
}

/// Keeps, of the applications with the same name, the first one.
pub fn dedup_by_name(apps: Vec<AppResult>) -> (r: Vec<AppResult>)
    ensures
        r.deep_view() == first_by_name(apps.deep_view()),
{
    let ghost all = apps.deep_view();
    let mut rest = apps;
    let mut seen: Vec<Vec<char>> = Vec::new();
    let mut out: Vec<AppResult> = Vec::new();
    let mut i: usize = 0;
    let n = rest.len();
    assert(rest.deep_view() =~= all.skip(0));
    while i < n
        invariant
            n == all.len(),
            i <= n,
            rest.deep_view() =~= all.skip(i as int),
            out.deep_view() == first_by_name(all.take(i as int)),
            seen.len() == i,
            forall|k: int| 0 <= k < i ==> #[trigger] seen[k]@ == all[k].name,
        decreases n - i,
    {
        let ghost before = rest.deep_view();
        assert(before.len() == n - i);
        let ghost old_rest = rest@;
        let a = rest.remove(0);
        assert(a@ == before[0]);
        assert forall|k: int| 0 <= k < rest.len() implies #[trigger] rest.deep_view()[k] == all.skip(
            i + 1,
        )[k] by {
            assert(rest@[k] == old_rest[k + 1]);
            assert(before[k + 1] == all[i + 1 + k]);
        }
        assert(rest.deep_view() =~= all.skip(i + 1));
        let name = crate::text::chars_of(a.name.as_str());
        let mut dup = false;
        let mut k: usize = 0;
        while k < seen.len()
            invariant
                k <= seen.len(),
                seen.len() == i,
                name@ == all[i as int].name,
                dup <==> exists|j: int| 0 <= j < k && (#[trigger] all[j]).name == all[i as int].name,
                forall|j: int| 0 <= j < i ==> #[trigger] seen[j]@ == all[j].name,
            decreases seen.len() - k,
        {
            if crate::text::eq_chars(&seen[k], &name) {
                dup = true;
            }
            k = k + 1;
        }
        let ghost pre = all.take(i as int);
        let ghost cur = all.take(i + 1);
        assert(cur.drop_last() =~= pre);
        assert(cur.last() == all[i as int]);
        assert(dup <==> exists|j: int| 0 <= j < cur.len() - 1 && (#[trigger] cur[j]).name
            == cur.last().name) by {
            if dup {
                let j = choose|j: int| 0 <= j < i && (#[trigger] all[j]).name == all[i as int].name;
                assert(cur[j] == all[j]);
            }
            if exists|j: int| 0 <= j < cur.len() - 1 && (#[trigger] cur[j]).name == cur.last().name {
                let j = choose|j: int| 0 <= j < cur.len() - 1 && (#[trigger] cur[j]).name
                    == cur.last().name;
                assert(all[j] == cur[j]);
            }
        }
        seen.push(name);
        if !dup {
            let ghost ob = out.deep_view();
            out.push(a);
            assert(out.deep_view() =~= ob.push(all[i as int]));
        }
        i = i + 1;
    }
    assert(all.take(n as int) =~= all);
    out
}


/// No application before `apps[k]` has its name.
pub open spec fn first_with_name(apps: Seq<AppView>, k: int) -> bool {
    forall|j: int| 0 <= j < k ==> (#[trigger] apps[j]).name != apps[k].name
}

/// Each kept application is an input application, the first with its name.
proof fn lemma_dedup_source(apps: Seq<AppView>)
    ensures
        forall|i: int| 0 <= i < first_by_name(apps).len() ==> exists|k: int|
            0 <= k < apps.len() && #[trigger] first_by_name(apps)[i] == apps[k] && first_with_name(apps, k),
    decreases apps.len(),
{
    if apps.len() > 0 {
        let p = apps.drop_last();
        lemma_dedup_source(p);
        let kept = first_by_name(p);
        let r = first_by_name(apps);
        assert forall|i: int| 0 <= i < r.len() implies exists|k: int|
            0 <= k < apps.len() && #[trigger] r[i] == apps[k] && first_with_name(apps, k) by {
            if i < kept.len() {
                assert(r[i] == kept[i]);
                let k = choose|k: int| 0 <= k < p.len() && #[trigger] kept[i] == p[k] && first_with_name(p, k);
                assert(apps[k] == p[k]);
                assert forall|j: int| 0 <= j < k implies (#[trigger] apps[j]).name != apps[k].name by {
                    assert(apps[j] == p[j]);
                }
                assert(first_with_name(apps, k));
            } else {
                assert(r[i] == apps[apps.len() - 1]);
                assert(first_with_name(apps, apps.len() - 1));
            }
        }
    }
}

/// No two kept applications share a name.
proof fn lemma_dedup_distinct(apps: Seq<AppView>)
    ensures
        forall|i: int, j: int| 0 <= i < j < first_by_name(apps).len() ==> (#[trigger] first_by_name(apps)[i]).name
            != (#[trigger] first_by_name(apps)[j]).name,
    decreases apps.len(),
{
    if apps.len() > 0 {
        let p = apps.drop_last();
        lemma_dedup_distinct(p);
        lemma_dedup_source(p);
        let kept = first_by_name(p);
        let r = first_by_name(apps);
        let last = apps.last();
        if r.len() > kept.len() {
            assert forall|i: int| 0 <= i < kept.len() implies (#[trigger] kept[i]).name != last.name by {
                let k = choose|k: int| 0 <= k < p.len() && #[trigger] kept[i] == p[k] && first_with_name(p, k);
                assert(apps[k] == p[k]);
            }
        }
        assert forall|i: int, j: int| 0 <= i < j < r.len() implies (#[trigger] r[i]).name != (
        #[trigger] r[j]).name by {
            assert(r[i] == kept[i]);
            if j < kept.len() {
                assert(r[j] == kept[j]);
            }
        }
    }
}

/// Every input name is kept.
proof fn lemma_dedup_complete(apps: Seq<AppView>)
    ensures
        forall|k: int| 0 <= k < apps.len() ==> exists|i: int| 0 <= i < first_by_name(apps).len()
            && (#[trigger] first_by_name(apps)[i]).name == (#[trigger] apps[k]).name,
    decreases apps.len(),
{
    if apps.len() > 0 {
        let p = apps.drop_last();
        lemma_dedup_complete(p);
        let kept = first_by_name(p);
        let r = first_by_name(apps);
        let n = apps.len() - 1;
        assert forall|k: int| 0 <= k < apps.len() implies exists|i: int| 0 <= i < r.len() && (
        #[trigger] r[i]).name == (#[trigger] apps[k]).name by {
            let m = if k < n {
                k
            } else if exists|m: int| 0 <= m < n && (#[trigger] apps[m]).name == apps[n].name {
                choose|m: int| 0 <= m < n && (#[trigger] apps[m]).name == apps[n].name
            } else {
                -1
            };
            if m >= 0 {
                assert(apps[m] == p[m]);
                let i = choose|i: int| 0 <= i < kept.len() && (#[trigger] kept[i]).name == (
                #[trigger] p[m]).name;
                assert(r[i] == kept[i]);
            } else {
                assert(r[kept.len() as int] == apps[n]);
            }
        }
    }
}

/// De-duplicating by name leaves each name once, loses no name, and keeps
/// for each name the first application that has it.
pub proof fn law_dedup_by_name(apps: Seq<AppView>)
    ensures
        forall|i: int, j: int| 0 <= i < j < first_by_name(apps).len() ==> (#[trigger] first_by_name(apps)[i]).name
            != (#[trigger] first_by_name(apps)[j]).name,
        forall|k: int| 0 <= k < apps.len() ==> exists|i: int| 0 <= i < first_by_name(apps).len()
            && (#[trigger] first_by_name(apps)[i]).name == (#[trigger] apps[k]).name,
        forall|i: int| 0 <= i < first_by_name(apps).len() ==> exists|k: int|
            0 <= k < apps.len() && #[trigger] first_by_name(apps)[i] == apps[k] && first_with_name(apps, k),
{
    lemma_dedup_distinct(apps);
    lemma_dedup_complete(apps);
    lemma_dedup_source(apps);
}


/// A directory of desktop files with its modification time (nanoseconds
/// since the Unix epoch), when it could be read.
#[derive(Clone, Debug)]
pub struct DirStamp {
    pub dir: String,
    pub modified: Option<u128>,
}

/// The mathematical value of a `DirStamp`.
pub struct StampView {
    pub dir: Seq<char>,
    pub modified: Option<u128>,
}

impl View for DirStamp {
    type V = StampView;

    open spec fn view(&self) -> StampView {
        StampView { dir: self.dir@, modified: self.modified }
    }
}

impl DeepView for DirStamp {
    type V = StampView;

    open spec fn deep_view(&self) -> StampView {
        self@
    }
}

/// The time recorded for `dir` (the first record of it), none when it was
/// not recorded or had no time.
pub open spec fn recorded_time(cache: Seq<StampView>, dir: Seq<char>) -> Option<u128>
    decreases cache.len(),
{
    if cache.len() == 0 {
        None
    } else if cache[0].dir == dir {
        cache[0].modified
    } else {
        recorded_time(cache.drop_first(), dir)
    }
}

/// The application list must be read again: nothing is cached, or some
/// directory's time now differs from the one recorded.
pub open spec fn stale(cache: Option<Seq<StampView>>, current: Seq<StampView>) -> bool {
    match cache {
        None => true,
        Some(c) => exists|i: int| 0 <= i < current.len() && recorded_time(c, (#[trigger] current[i]).dir)
            != current[i].modified,
    }
}

/// The view of an optional list of stamps.
pub open spec fn stamps_view(o: Option<Vec<DirStamp>>) -> Option<Seq<StampView>> {
    match o {
        Some(v) => Some(v.deep_view()),
        None => None,
    }
}

/// The time recorded for a directory.
fn recorded_time_exec(cache: &Vec<DirStamp>, dir: &str) -> (r: Option<u128>)
    ensures
        r == recorded_time(cache.deep_view(), dir@),
{
    let d = chars_of(dir);
    let mut i: usize = 0;
    assert(cache.deep_view().skip(0) =~= cache.deep_view());
    while i < cache.len()
        invariant
            i <= cache.len(),
            d@ == dir@,
            recorded_time(cache.deep_view().skip(i as int), dir@) == recorded_time(cache.deep_view(), dir@),
        decreases cache.len() - i,
    {
        let ghost rest = cache.deep_view().skip(i as int);
        assert(rest[0] == cache[i as int]@);
        let c = chars_of(cache[i].dir.as_str());
        if crate::text::eq_chars(&c, &d) {
            return cache[i].modified;
        }
        assert(rest.drop_first() =~= cache.deep_view().skip(i + 1));
        i = i + 1;
    }
    assert(cache.deep_view().skip(i as int).len() == 0);
    None
}

/// Whether the cached application list is out of date.
pub fn needs_reload(cache: &Option<Vec<DirStamp>>, current: &Vec<DirStamp>) -> (b: bool)
    ensures
        b == stale(stamps_view(*cache), current.deep_view()),
{
    match cache {
        None => true,
        Some(c) => times_differ(c, current),
    }
}

/// Some directory's current time differs from the one recorded.
fn times_differ(c: &Vec<DirStamp>, current: &Vec<DirStamp>) -> (b: bool)
    ensures
        b == stale(Some(c.deep_view()), current.deep_view()),
{
    let mut i: usize = 0;
    while i < current.len()
        invariant
            i <= current.len(),
            forall|k: int| 0 <= k < i ==> recorded_time(c.deep_view(), (#[trigger] current.deep_view()[k]).dir)
                == current.deep_view()[k].modified,
        decreases current.len() - i,
    {
        let t = recorded_time_exec(c, current[i].dir.as_str());
        assert(current.deep_view()[i as int] == current[i as int]@);
        if t != current[i].modified {
            assert(recorded_time(c.deep_view(), current.deep_view()[i as int].dir)
                != current.deep_view()[i as int].modified);
            return true;
        }
        i = i + 1;
    }
    false
}


/// File names in the order of their paths within one directory: by their
/// UTF-8 bytes, which is the order of their characters' code points.
pub open spec fn name_before() -> spec_fn(Seq<char>, Seq<char>) -> bool {
    |a: Seq<char>, b: Seq<char>| lex_le(a, b)
}

/// The names with the `desktop` extension, in order.
pub open spec fn desktop_only(names: Seq<Seq<char>>) -> Seq<Seq<char>>
    decreases names.len(),
{
    if names.len() == 0 {
        seq![]
    } else if extension_of(names.last()) == Some("desktop"@) {
        desktop_only(names.drop_last()).push(names.last())
    } else {
        desktop_only(names.drop_last())
    }
}

/// The desktop files of a directory listing, in path order.
pub open spec fn desktop_files_of(names: Seq<Seq<char>>) -> Seq<Seq<char>> {
    desktop_only(sort_stable(names, name_before()))
}

/// Inserts a name after every name that does not come after it.
fn insert_name(out: &mut Vec<String>, x: String)
    ensures
        final(out).deep_view() == insert_stable(old(out).deep_view(), x@, name_before()),
{
    let ghost s = out.deep_view();
    let xc = chars_of(x.as_str());
    let mut j = out.len();
    while j > 0
        invariant
            j <= out.len(),
            s == out.deep_view(),
            xc@ == x@,
            forall|k: int| j <= k < s.len() ==> !(name_before())(#[trigger] s[k], x@),
        ensures
            j <= out.len(),
            forall|k: int| j <= k < s.len() ==> !(name_before())(#[trigger] s[k], x@),
            j > 0 ==> (name_before())(s[j - 1], x@),
        decreases j,
    {
        let c = chars_of(out[j - 1].as_str());
        assert(s[j - 1] == out@[j - 1]@);
        if lex_le_exec(&c, &xc) {
            break;
        }
        j = j - 1;
    }
    proof {
        lemma_insert_at(s, x@, name_before(), j as int);
    }
    let ghost xv = x@;
    out.insert(j, x);
    assert(out.deep_view() =~= s.insert(j as int, xv));
}

/// The desktop files among the names of a directory's entries, in the
/// order of their paths.
pub fn desktop_files_in_order(names: Vec<String>) -> (r: Vec<String>)
    ensures
        r.deep_view() == desktop_files_of(names.deep_view()),
{
    let ghost all = names.deep_view();
    let mut sorted: Vec<String> = Vec::new();
    let mut i: usize = 0;
    while i < names.len()
        invariant
            i <= names.len(),
            all == names.deep_view(),
            sorted.deep_view() == sort_stable(all.take(i as int), name_before()),
        decreases names.len() - i,
    {
        assert(all.take(i + 1).drop_last() =~= all.take(i as int));
        assert(all[i as int] == names[i as int]@);
        insert_name(&mut sorted, names[i].clone());
        i = i + 1;
    }
    assert(all.take(names.len() as int) =~= all);
    let ghost ss = sorted.deep_view();
    let mut out: Vec<String> = Vec::new();
    let mut k: usize = 0;
    while k < sorted.len()
        invariant
            k <= sorted.len(),
            ss == sorted.deep_view(),
            out.deep_view() == desktop_only(ss.take(k as int)),
        decreases sorted.len() - k,
    {
        assert(ss.take(k + 1).drop_last() =~= ss.take(k as int));
        assert(ss[k as int] == sorted[k as int]@);
        if is_desktop_file(sorted[k].as_str()) {
            let ghost before = out.deep_view();
            out.push(sorted[k].clone());
            assert(out.deep_view() =~= before.push(ss[k as int]));
        }
        k = k + 1;
    }
    assert(ss.take(sorted.len() as int) =~= ss);
    out
}


/// The lines that count for the `[Desktop Entry]` group: its header lines
/// and the lines inside it (`inside` tells whether the lines start inside
/// it); other groups, with their headers, are left out.
pub open spec fn kept_lines(ls: Seq<Seq<char>>, inside: bool) -> Seq<Seq<char>>
    decreases ls.len(),
{
    if ls.len() == 0 {
        seq![]
    } else {
        let l = ls[0];
        let rest = ls.drop_first();
        if l == "[Desktop Entry]"@ {
            seq![l] + kept_lines(rest, true)
        } else if has_prefix(l, "["@) {
            kept_lines(rest, false)
        } else if inside {
            seq![l] + kept_lines(rest, true)
        } else {
            kept_lines(rest, false)
        }
    }
}

/// The lines of a desktop file's text that belong to its `[Desktop Entry]`
/// group, with the group's headers.
pub open spec fn entry_group_lines(content: Seq<char>) -> Seq<Seq<char>> {
    kept_lines(lines(content), false)
}

/// The gathered fields, forgetting which group the last line was in.
pub open spec fn fields(m: EntryModel) -> EntryModel {
    EntryModel { in_entry: false, ..m }
}

/// The fields of a parse result.
pub open spec fn entry_fields(o: Option<EntryModel>) -> Option<EntryModel> {
    match o {
        Some(m) => Some(fields(m)),
        None => None,
    }
}

/// The lines folded from the front, starting from `m`.
pub open spec fn gather_from(m: EntryModel, ls: Seq<Seq<char>>) -> EntryModel
    decreases ls.len(),
{
    if ls.len() == 0 {
        m
    } else {
        gather_from(step(m, ls[0]), ls.drop_first())
    }
}

/// Folding from the front ends with the last line.
proof fn lemma_gather_from_push(m: EntryModel, ls: Seq<Seq<char>>, x: Seq<char>)
    ensures
        gather_from(m, ls.push(x)) == step(gather_from(m, ls), x),
    decreases ls.len(),
{
    if ls.len() > 0 {
        assert(ls.push(x)[0] == ls[0]);
        assert(ls.push(x).drop_first() =~= ls.drop_first().push(x));
        lemma_gather_from_push(step(m, ls[0]), ls.drop_first(), x);
    } else {
        assert(ls.push(x)[0] == x);
        assert(ls.push(x).drop_first() =~= Seq::<Seq<char>>::empty());
        assert(gather_from(step(m, x), Seq::<Seq<char>>::empty()) == step(m, x));
    }
}

/// Gathering is folding from the front from the empty model.
proof fn lemma_gather_is_fold(ls: Seq<Seq<char>>)
    ensures
        gather(ls) == gather_from(empty_model(), ls),
    decreases ls.len(),
{
    if ls.len() > 0 {
        lemma_gather_is_fold(ls.drop_last());
        lemma_gather_from_push(empty_model(), ls.drop_last(), ls.last());
        assert(ls.drop_last().push(ls.last()) =~= ls);
    }
}

/// Folding all lines and folding only the kept ones give the same fields,
/// from models with the same fields, the first inside the group exactly
/// when `inside`, the second inside it whenever `inside`.
proof fn lemma_kept_lines_fold(m1: EntryModel, m2: EntryModel, ls: Seq<Seq<char>>, inside: bool)
    requires
        fields(m1) == fields(m2),
        m1.in_entry == inside,
        inside ==> m2.in_entry,
    ensures
        fields(gather_from(m1, ls)) == fields(gather_from(m2, kept_lines(ls, inside))),
    decreases ls.len(),
{
    if ls.len() > 0 {
        let l = ls[0];
        let rest = ls.drop_first();
        let k = kept_lines(ls, inside);
        if l == "[Desktop Entry]"@ {
            assert(k == seq![l] + kept_lines(rest, true));
            assert(k[0] == l);
            assert(k.drop_first() =~= kept_lines(rest, true));
            lemma_kept_lines_fold(step(m1, l), step(m2, l), rest, true);
        } else if has_prefix(l, "["@) {
            lemma_kept_lines_fold(step(m1, l), m2, rest, false);
        } else if inside {
            assert(m1 == m2);
            assert(k[0] == l);
            assert(k.drop_first() =~= kept_lines(rest, true));
            lemma_kept_lines_fold(step(m1, l), step(m2, l), rest, true);
        } else {
            lemma_kept_lines_fold(step(m1, l), m2, rest, false);
        }
    }
}

/// Lines outside the `[Desktop Entry]` group never change what a desktop
/// file gives: two texts whose entry group lines agree give the same
/// entry, or both none.
pub proof fn law_other_groups_ignored(c1: Seq<char>, c2: Seq<char>)
    requires
        entry_group_lines(c1) == entry_group_lines(c2),
    ensures
        entry_fields(parse_entry(c1)) == entry_fields(parse_entry(c2)),
{
    lemma_gather_is_fold(lines(c1));
    lemma_gather_is_fold(lines(c2));
    lemma_kept_lines_fold(empty_model(), empty_model(), lines(c1), false);
    lemma_kept_lines_fold(empty_model(), empty_model(), lines(c2), false);
    let g1 = gather(lines(c1));
    let g2 = gather(lines(c2));
    assert(fields(g1) == fields(g2));
}

/// With no directory recorded twice, each directory's recorded time is its own.
proof fn lemma_recorded_own(stamps: Seq<StampView>, i: int)
    requires
        0 <= i < stamps.len(),
        forall|a: int, b: int| 0 <= a < b < stamps.len() ==> (#[trigger] stamps[a]).dir != (#[trigger] stamps[b]).dir,
    ensures
        recorded_time(stamps, stamps[i].dir) == stamps[i].modified,
    decreases i,
{
    if i > 0 {
        let t = stamps.drop_first();
        assert(stamps[0].dir != stamps[i].dir);
        assert(t[i - 1] == stamps[i]);
        assert forall|a: int, b: int| 0 <= a < b < t.len() implies (#[trigger] t[a]).dir != (#[trigger] t[b]).dir by {
            assert(t[a] == stamps[a + 1] && t[b] == stamps[b + 1]);
        }
        lemma_recorded_own(t, i - 1);
    }
}

/// When the application directories and their times are the ones recorded
/// (no directory listed twice), the cached list is served: no reload.
pub proof fn law_unchanged_times_no_reload(stamps: Seq<StampView>)
    requires
        forall|a: int, b: int| 0 <= a < b < stamps.len() ==> (#[trigger] stamps[a]).dir != (#[trigger] stamps[b]).dir,
    ensures
        !stale(Some(stamps), stamps),
{
    assert forall|i: int| 0 <= i < stamps.len() implies recorded_time(stamps, (#[trigger] stamps[i]).dir)
        == stamps[i].modified by {
        lemma_recorded_own(stamps, i);
    }
}


/// The application list read last, with the directory times it was read at.
pub struct AppCache {
    pub entry: Option<(Vec<AppResult>, Vec<DirStamp>)>,
}

impl View for AppCache {
    type V = Option<(Seq<AppView>, Seq<StampView>)>;

    open spec fn view(&self) -> Option<(Seq<AppView>, Seq<StampView>)> {
        match self.entry {
            Some((apps, stamps)) => Some((apps.deep_view(), stamps.deep_view())),
            None => None,
        }
    }
}

impl AppCache {
    /// A cache holding nothing.
    pub fn new() -> (c: AppCache)
        ensures
            c@ is None,
    {
        AppCache { entry: None }
    }

    /// The cached list, when it is not out of date for the directories'
    /// current times (see `stale`).
    pub fn cached(&self, current: &Vec<DirStamp>) -> (r: Option<&Vec<AppResult>>)
        ensures
            match self@ {
                None => r is None,
                Some((apps, stamps)) => if stale(Some(stamps), current.deep_view()) {
                    r is None
                } else {
                    r matches Some(v) && v.deep_view() == apps
                },
            },
    {
        match &self.entry {
            None => None,
            Some((apps, stamps)) => {
                if times_differ(stamps, current) {
                    None
                } else {
                    Some(apps)
                }
            },
        }
    }

    /// Records a freshly read list with the times it was read at.
    pub fn store(&mut self, apps: Vec<AppResult>, stamps: Vec<DirStamp>)
        ensures
            final(self)@ == Some((apps.deep_view(), stamps.deep_view())),
    {
        self.entry = Some((apps, stamps));
    }
}


/// The application directories' stamps: the directories kept from
/// `app_dir_candidates` under the file system's answers, with any times.
pub open spec fn app_dir_stamps(stamps: Seq<StampView>, xdg: Option<Seq<char>>, home: Option<Seq<char>>, flags: Seq<bool>) -> bool {
    stamps.map_values(|st: StampView| st.dir) == collect_existing(app_dir_candidates(xdg, home), flags, true)
}

/// When the application directories are the same and none of their times
/// changed, the stored list is served from the cache: a list stored with
/// the directories' stamps is what a later lookup with the same stamps
/// gives.
pub proof fn law_unchanged_dirs_serve_cache(
    apps: Seq<AppView>,
    stamps: Seq<StampView>,
    xdg: Option<Seq<char>>,
    home: Option<Seq<char>>,
    flags: Seq<bool>,
)
    requires
        flags.len() == app_dir_candidates(xdg, home).len(),
        app_dir_stamps(stamps, xdg, home, flags),
    ensures
        !stale(Some(stamps), stamps),
{
    law_application_dirs_distinct(xdg, home, flags);
    let d = collect_existing(app_dir_candidates(xdg, home), flags, true);
    assert forall|a: int, b: int| 0 <= a < b < stamps.len() implies (#[trigger] stamps[a]).dir != (#[trigger] stamps[b]).dir by {
        assert(stamps.map_values(|st: StampView| st.dir)[a] == stamps[a].dir);
        assert(stamps.map_values(|st: StampView| st.dir)[b] == stamps[b].dir);
        assert(!same_path(d[a], d[b]));
    }
    law_unchanged_times_no_reload(stamps);
}

} // verus!
