//! The user's settings: colour theme, list order and the sweep phrase, with
//! the text of the config file they are read from and written to.

use vstd::prelude::*;

use crate::stamp::has_char;
use crate::text::{
    is_ws, lemma_split_concat, lemma_split_single, lemma_trim_id, split_lines, strip_cr,
    chars_eq, chars_of, find_char, find_char_exec, lemma_find_char, lines_view, slice_range,
    string_of, text_lines, text_lines_exec, trim, trim_chars,
};

verus! {

/// Colour theme of the screen.
#[derive(Debug, Clone, Copy, PartialEq, Eq, Structural)]
pub enum Theme {
    Dark,
    Light,
}

impl Theme {
    pub open spec fn toggle_spec(self) -> Theme {
        match self {
            Theme::Dark => Theme::Light,
            Theme::Light => Theme::Dark,
        }
    }

    /// The other theme.
    pub fn toggle(self) -> (res: Theme)
        ensures
            res == self.toggle_spec(),
    {
        match self {
            Theme::Dark => Theme::Light,
            Theme::Light => Theme::Dark,
        }
    }

    pub open spec fn spec_name(self) -> Seq<char> {
        match self {
            Theme::Dark => "dark"@,
            Theme::Light => "light"@,
        }
    }

    /// The word for this theme in the config file and on screen.
    pub fn name(self) -> (res: &'static str)
        ensures
            res@ == self.spec_name(),
    {
        match self {
            Theme::Dark => "dark",
            Theme::Light => "light",
        }
    }
}

/// Order of the live list.
#[derive(Debug, Clone, Copy, PartialEq, Eq, Structural)]
pub enum Sort {
    Created,
    Due,
    Alpha,
}

impl Sort {
    pub open spec fn next_spec(self) -> Sort {
        match self {
            Sort::Created => Sort::Due,
            Sort::Due => Sort::Alpha,
            Sort::Alpha => Sort::Created,
        }
    }

    /// The next order in the cycle created, due, alpha.
    pub fn next(self) -> (res: Sort)
        ensures
            res == self.next_spec(),
    {
        match self {
            Sort::Created => Sort::Due,
            Sort::Due => Sort::Alpha,
            Sort::Alpha => Sort::Created,
        }
    }

    pub open spec fn spec_name(self) -> Seq<char> {
        match self {
            Sort::Created => "created"@,
            Sort::Due => "due"@,
            Sort::Alpha => "alpha"@,
        }
    }

    /// The word for this order in the config file and on screen.
    pub fn name(self) -> (res: &'static str)
        ensures
            res@ == self.spec_name(),
    {
        match self {
            Sort::Created => "created",
            Sort::Due => "due",
            Sort::Alpha => "alpha",
        }
    }
}

/// What is typed after `:` to sweep the ticked todos into history, unless
/// the config says otherwise.
pub const DEFAULT_PHRASE: &'static str = "morning";

/// The user's settings.
#[derive(Debug, Clone)]
pub struct Config {
    pub theme: Theme,
    pub sort: Sort,
    /// Typed after `:` to sweep the ticked todos into history.
    pub phrase: String,
}

/// A config's settings as plain values.
pub open spec fn settings(c: Config) -> (Theme, Sort, Seq<char>) {
    (c.theme, c.sort, c.phrase@)
}

pub open spec fn default_settings() -> (Theme, Sort, Seq<char>) {
    (Theme::Dark, Sort::Created, "morning"@)
}

/// What one line of the config file does to the settings. A `#` starts a
/// comment that runs to the end of the line, as in `theme=dark  # or light`;
/// what comes before it is trimmed. Blank lines and lines without `=` do
/// nothing; otherwise the key and value either side of the first `=`,
/// trimmed, set a theme, an order or a non-empty phrase. Anything else is
/// ignored.
pub open spec fn apply_line(c: (Theme, Sort, Seq<char>), line: Seq<char>) -> (
    Theme,
    Sort,
    Seq<char>,
) {
    let l = trim(line.subrange(0, find_char(line, '#', 0)));
    let j = find_char(l, '=', 0);
    if l.len() == 0 || j >= l.len() {
        c
    } else {
        let key = trim(l.subrange(0, j));
        let value = trim(l.subrange(j + 1, l.len() as int));
        if key == "theme"@ && value == "light"@ {
            (Theme::Light, c.1, c.2)
        } else if key == "theme"@ && value == "dark"@ {
            (Theme::Dark, c.1, c.2)
        } else if key == "sort"@ && value == "created"@ {
            (c.0, Sort::Created, c.2)
        } else if key == "sort"@ && value == "due"@ {
            (c.0, Sort::Due, c.2)
        } else if key == "sort"@ && value == "alpha"@ {
            (c.0, Sort::Alpha, c.2)
        } else if key == "phrase"@ && value.len() > 0 {
            // An empty phrase would make a bare `:` sweep the list, so it is
            // ignored rather than arming a hair trigger.
            (c.0, c.1, value)
        } else {
            c
        }
    }
}

/// The settings after the lines `ls`, in order, starting from `c`.
pub open spec fn apply_lines(c: (Theme, Sort, Seq<char>), ls: Seq<Seq<char>>) -> (
    Theme,
    Sort,
    Seq<char>,
)
    decreases ls.len(),
{
    if ls.len() == 0 {
        c
    } else {
        apply_line(apply_lines(c, ls.drop_last()), ls.last())
    }
}

/// The settings a config file's text gives.
pub open spec fn config_from(text: Seq<char>) -> (Theme, Sort, Seq<char>) {
    apply_lines(default_settings(), text_lines(text))
}

/// The config file's text for the settings `c`.
pub open spec fn config_text(c: (Theme, Sort, Seq<char>)) -> Seq<char> {
    "theme="@ + c.0.spec_name() + "\nsort="@ + c.1.spec_name() + "\nphrase="@ + c.2 + "\n"@
}

impl Default for Config {
    fn default() -> (res: Config)
        ensures
            settings(res) == default_settings(),
    {
        Config { theme: Theme::Dark, sort: Sort::Created, phrase: DEFAULT_PHRASE.to_owned() }
    }
}

fn is_word(c: &[char], w: &str) -> (res: bool)
    ensures
        res == (c@ == w@),
{
    let wc = chars_of(w);
    chars_eq(c, wc.as_slice())
}

impl Config {
    /// The settings `text`, the content of a config file, gives: the
    /// defaults, changed by each line in turn.
    pub fn parse(text: &str) -> (res: Config)
        ensures
            settings(res) == config_from(text@),
    {
        let mut cfg = Config::default();
        let cs = chars_of(text);
        let lines = text_lines_exec(cs.as_slice());
        let ghost ls = text_lines(text@);
        let mut i: usize = 0;
        proof {
            assert(ls.subrange(0, 0) =~= Seq::<Seq<char>>::empty());
        }
        while i < lines.len()
            invariant
                lines_view(lines@) == ls,
                i <= ls.len(),
                settings(cfg) == apply_lines(default_settings(), ls.subrange(0, i as int)),
            decreases ls.len() - i,
        {
            proof {
                assert(lines@[i as int]@ == ls[i as int]);
                let t = ls.subrange(0, i + 1);
                assert(t.drop_last() == ls.subrange(0, i as int));
                assert(t.last() == ls[i as int]);
            }
            cfg.apply(lines[i].as_slice());
            i += 1;
        }
        proof {
            assert(ls.subrange(0, ls.len() as int) == ls);
        }
        cfg
    }

    /// Applies one line of a config file.
    fn apply(&mut self, line: &[char])
        ensures
            settings(*final(self)) == apply_line(settings(*old(self)), line@),
    {
        let h = find_char_exec(line, '#', 0);
        proof {
            lemma_find_char(line@, '#', 0);
        }
        let before = slice_range(line, 0, h);
        let l = trim_chars(before.as_slice());
        let j = find_char_exec(l.as_slice(), '=', 0);
        proof {
            lemma_find_char(l@, '=', 0);
        }
        if l.len() == 0 || j >= l.len() {
            return ;
        }
        let k = slice_range(l.as_slice(), 0, j);
        let v = slice_range(l.as_slice(), j + 1, l.len());
        let key = trim_chars(k.as_slice());
        let value = trim_chars(v.as_slice());
        if is_word(key.as_slice(), "theme") && is_word(value.as_slice(), "light") {
            self.theme = Theme::Light;
        } else if is_word(key.as_slice(), "theme") && is_word(value.as_slice(), "dark") {
            self.theme = Theme::Dark;
        } else if is_word(key.as_slice(), "sort") && is_word(value.as_slice(), "created") {
            self.sort = Sort::Created;
        } else if is_word(key.as_slice(), "sort") && is_word(value.as_slice(), "due") {
            self.sort = Sort::Due;
        } else if is_word(key.as_slice(), "sort") && is_word(value.as_slice(), "alpha") {
            self.sort = Sort::Alpha;
        } else if is_word(key.as_slice(), "phrase") && value.len() > 0 {
            self.phrase = string_of(value.as_slice());
        }
    }

    /// The text of the config file for these settings.
    pub fn render(&self) -> (res: String)
        ensures
            res@ == config_text(settings(*self)),
    {
        let mut out = chars_of("theme=");
        let mut a = chars_of(self.theme.name());
        out.append(&mut a);
        let mut b = chars_of("\nsort=");
        out.append(&mut b);
        let mut c = chars_of(self.sort.name());
        out.append(&mut c);
        let mut d = chars_of("\nphrase=");
        out.append(&mut d);
        let mut e = chars_of(self.phrase.as_str());
        out.append(&mut e);
        let mut f = chars_of("\n");
        out.append(&mut f);
        string_of(out.as_slice())
    }
}

/// One `key=value` line of the file, for a key and value that neither
/// start nor end with white space, and a key without `=`.
proof fn lemma_apply_setting_line(c: (Theme, Sort, Seq<char>), key: Seq<char>, value: Seq<char>)
    requires
        key.len() > 0,
        value.len() > 0,
        !is_ws(key[0]),
        key[0] != '#',
        !is_ws(key.last()),
        !is_ws(value[0]),
        !is_ws(value.last()),
        !has_char(key, '='),
        !has_char(key, '#'),
        !has_char(value, '#'),
    ensures
        ({
            let l = key + "="@ + value;
            let k = trim(l.subrange(0, find_char(l, '=', 0)));
            let v = trim(l.subrange(find_char(l, '=', 0) + 1, l.len() as int));
            &&& l.subrange(0, find_char(l, '#', 0)) == l
            &&& trim(l) == l
            &&& find_char(l, '=', 0) < l.len()
            &&& k == key
            &&& v == value
            &&& apply_line(c, l) == apply_line(c, key + "="@ + value)
        }),
{
    reveal_strlit("=");
    let l = key + "="@ + value;
    assert(l[0] == key[0]);
    assert(l.last() == value.last());
    lemma_trim_id(l);
    lemma_find_char(l, '=', 0);
    let j = find_char(l, '=', 0);
    assert(l[key.len() as int] == '=');
    if j < key.len() {
        assert(l[j] == key[j]);
    }
    assert(j == key.len());
    assert(l.subrange(0, j) == key);
    assert(l.subrange(j + 1, l.len() as int) == value);
    lemma_trim_id(key);
    lemma_trim_id(value);
    lemma_find_char(l, '#', 0);
    let h = find_char(l, '#', 0);
    if h < l.len() {
        if h < key.len() {
            assert(l[h] == key[h]);
            assert(has_char(key, '#'));
        } else if h > key.len() {
            assert(l[h] == value[h - key.len() - 1]);
            assert(has_char(value, '#'));
        }
    }
    assert(l.subrange(0, h) == l);
}

/// Writing the settings to the config file and reading them back gives the
/// same settings, for any phrase that can stand on its own line: one that
/// is not empty, has no newline and no `#`, which would start a comment, and
/// neither starts nor ends with white space.
pub proof fn law_config_round_trip(c: (Theme, Sort, Seq<char>))
    requires
        c.2.len() > 0,
        !has_char(c.2, '\n'),
        !has_char(c.2, '#'),
        !is_ws(c.2[0]),
        !is_ws(c.2.last()),
    ensures
        config_from(config_text(c)) == c,
{
    reveal_strlit("theme=");
    reveal_strlit("\nsort=");
    reveal_strlit("\nphrase=");
    reveal_strlit("\n");
    reveal_strlit("=");
    reveal_strlit("theme");
    reveal_strlit("sort");
    reveal_strlit("phrase");
    reveal_strlit("dark");
    reveal_strlit("light");
    reveal_strlit("created");
    reveal_strlit("due");
    reveal_strlit("alpha");
    let tn = c.0.spec_name();
    let sn = c.1.spec_name();
    let a = "theme"@ + "="@ + tn;
    let b = "sort"@ + "="@ + sn;
    let p = "phrase"@ + "="@ + c.2;
    let nl = seq!['\n'];
    let text = config_text(c);
    assert(text == a + nl + (b + nl + (p + nl + Seq::<char>::empty())));
    assert forall|i: int| 0 <= i < a.len() implies a[i] != '\n' by {}
    assert forall|i: int| 0 <= i < b.len() implies b[i] != '\n' by {}
    assert forall|i: int| 0 <= i < p.len() implies p[i] != '\n' by {
        if i >= 7 {
            assert(p[i] == c.2[i - 7]);
            if p[i] == '\n' {
                assert(has_char(c.2, '\n'));
            }
        }
    }
    lemma_split_single(a);
    lemma_split_single(b);
    lemma_split_single(p);
    lemma_split_concat(p, Seq::<char>::empty());
    lemma_split_concat(b, p + nl + Seq::<char>::empty());
    lemma_split_concat(a, b + nl + (p + nl + Seq::<char>::empty()));
    let pieces = split_lines(text);
    assert(pieces == seq![a, b, p, Seq::<char>::empty()]);
    assert(strip_cr(a) == a);
    assert(strip_cr(b) == b);
    assert(strip_cr(p) == p) by {
        assert(p.last() == c.2.last());
    }
    let ls = text_lines(text);
    assert(ls == seq![a, b, p]);
    let c0 = default_settings();
    lemma_apply_setting_line(c0, "theme"@, tn);
    let c1 = apply_line(c0, a);
    lemma_apply_setting_line(c1, "sort"@, sn);
    let c2 = apply_line(c1, b);
    assert(!has_char("phrase"@, '='));
    lemma_apply_setting_line(c2, "phrase"@, c.2);
    assert("phrase"@ != "theme"@);
    assert("phrase"@ != "sort"@);
    assert("sort"@ != "theme"@);
    assert("dark"@ != "light"@);
    assert("created"@ != "due"@) by {
        assert("created"@.len() != "due"@.len());
    }
    assert("created"@ != "alpha"@) by {
        assert("created"@.len() != "alpha"@.len());
    }
    assert("due"@ != "alpha"@);
    assert(c1 == (c.0, c0.1, c0.2));
    assert(c2 == (c.0, c.1, c0.2));
    let c3 = apply_line(c2, p);
    assert(c3 == c);
    assert(ls.drop_last() == seq![a, b]);
    assert(ls.drop_last().drop_last() == seq![a]);
    assert(seq![a].drop_last() == Seq::<Seq<char>>::empty());
    assert(apply_lines(c0, Seq::<Seq<char>>::empty()) == c0);
    assert(seq![a].last() == a);
    assert(apply_lines(c0, seq![a]) == apply_line(apply_lines(c0, seq![a].drop_last()), a));
    assert(apply_lines(c0, seq![a]) == c1);
    assert(apply_lines(c0, seq![a, b]) == c2);
    assert(apply_lines(c0, ls) == c3);
}

/// The last component of `path`, as `std::path::Path::file_name` finds it
/// (none for a path that ends in `..` or is a root).
pub uninterp spec fn spec_file_name(path: Seq<char>) -> Option<Seq<char>>;

/// `path` with its last component replaced by `name`, as
/// `std::path::Path::with_file_name` makes it (or with `name` pushed on when
/// it has no last component).
pub uninterp spec fn spec_with_file_name(path: Seq<char>, name: Seq<char>) -> Seq<char>;

/// The last component of `path`: std's `Path::file_name`. Its result is
/// claimed to be the named one of `path`, nothing more.
#[verifier::external_body]
pub(crate) fn file_name(path: &str) -> (res: Option<String>)
    ensures
        res matches Some(n) ==> spec_file_name(path@) == Some(n@),
        res is None ==> spec_file_name(path@) is None,
{
    match std::path::Path::new(path).file_name() {
        Some(n) => Some(n.to_string_lossy().into_owned()),
        None => None,
    }
}

/// `path` with its last component replaced by `name`: std's
/// `Path::with_file_name`. Its result is claimed to be the named one of
/// `path` and `name`, nothing more.
#[verifier::external_body]
pub(crate) fn with_file_name(path: &str, name: &str) -> (res: String)
    ensures
        res@ == spec_with_file_name(path@, name@),
{
    std::path::Path::new(path).with_file_name(name).to_string_lossy().into_owned()
}

/// Projects sit next to the todos, so pointing the todo file elsewhere
/// gets that list's projects too: the path of the todo file, `data_path`,
/// with `projects.txt` as its last component.
pub fn projects_path(data_path: &str) -> (res: String)
    ensures
        res@ == spec_with_file_name(data_path@, "projects.txt"@),
{
    with_file_name(data_path, "projects.txt")
}

/// `base` with `part` joined on as a further component, as
/// `std::path::Path::join` makes it.
pub uninterp spec fn spec_join(base: Seq<char>, part: Seq<char>) -> Seq<char>;

/// `base` with `part` joined on: std's `Path::join`. Its result is claimed
/// to be the named one of `base` and `part`, nothing more.
#[verifier::external_body]
pub(crate) fn join(base: &str, part: &str) -> (res: String)
    ensures
        res@ == spec_join(base@, part@),
{
    std::path::Path::new(base).join(part).to_string_lossy().into_owned()
}

/// The home directory: `$HOME`, or the current directory when it is unset.
pub open spec fn home_dir(home: Option<Seq<char>>) -> Seq<char> {
    match home {
        Some(h) => h,
        None => "."@,
    }
}

pub open spec fn opt_seq(s: Option<String>) -> Option<Seq<char>> {
    match s {
        Some(t) => Some(t@),
        None => None,
    }
}

/// Where the todos live: `$TD_FILE` when it is set; otherwise `td/todos.txt`
/// under `$XDG_DATA_HOME`, or under `.local/share` in the home directory.
pub open spec fn data_path_spec(
    td_file: Option<Seq<char>>,
    xdg_data_home: Option<Seq<char>>,
    home: Option<Seq<char>>,
) -> Seq<char> {
    match td_file {
        Some(f) => f,
        None => {
            let base = match xdg_data_home {
                Some(x) => x,
                None => spec_join(spec_join(home_dir(home), ".local"@), "share"@),
            };
            spec_join(spec_join(base, "td"@), "todos.txt"@)
        },
    }
}

/// Where the settings live: `td/config` under `$XDG_CONFIG_HOME`, or under
/// `.config` in the home directory.
pub open spec fn config_path_spec(xdg_config_home: Option<Seq<char>>, home: Option<Seq<char>>) -> Seq<
    char,
> {
    let base = match xdg_config_home {
        Some(x) => x,
        None => spec_join(home_dir(home), ".config"@),
    };
    spec_join(spec_join(base, "td"@), "config"@)
}

fn home_or_here(home: Option<String>) -> (res: String)
    ensures
        res@ == home_dir(opt_seq(home)),
{
    match home {
        Some(h) => h,
        None => ".".to_owned(),
    }
}

/// The todo file, from the values of `TD_FILE`, `XDG_DATA_HOME` and `HOME`
/// (each `None` when unset); see `data_path_spec`.
pub fn data_path_from(td_file: Option<String>, xdg_data_home: Option<String>, home: Option<String>) -> (res: String)
    ensures
        res@ == data_path_spec(opt_seq(td_file), opt_seq(xdg_data_home), opt_seq(home)),
{
    match td_file {
        Some(f) => f,
        None => {
            let base = match xdg_data_home {
                Some(x) => x,
                None => {
                    let h = home_or_here(home);
                    let local = join(h.as_str(), ".local");
                    join(local.as_str(), "share")
                },
            };
            let td = join(base.as_str(), "td");
            join(td.as_str(), "todos.txt")
        },
    }
}

/// The config file, from the values of `XDG_CONFIG_HOME` and `HOME` (each
/// `None` when unset); see `config_path_spec`.
pub fn config_path_from(xdg_config_home: Option<String>, home: Option<String>) -> (res: String)
    ensures
        res@ == config_path_spec(opt_seq(xdg_config_home), opt_seq(home)),
{
    let base = match xdg_config_home {
        Some(x) => x,
        None => {
            let h = home_or_here(home);
            join(h.as_str(), ".config")
        },
    };
    let td = join(base.as_str(), "td");
    join(td.as_str(), "config")
}

} // verus!
