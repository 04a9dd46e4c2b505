//! Todos and where they live: the live list, the history, and the text file
//! that holds both, one todo per line.

use vstd::multiset::Multiset;
use vstd::prelude::*;

use crate::config::{file_name, spec_file_name, spec_with_file_name, with_file_name, Sort};
use crate::date::{spec_display, spec_parse_date, year_of, Date};
use crate::stamp::{has_char, parse_stamp, spec_parse_rfc3339, spec_rfc3339, writable, Stamp};
use crate::text::{
    back_ws, lemma_back_ws_bounds, lemma_split_concat, lemma_split_single, skip_ws, split_lines,
    strip_cr, is_ws, chars_eq, chars_of, lines_view, slice_range, string_of, text_lines, text_lines_exec, trim,
    trim_chars,
};

verus! {

/// How one character is written in a field: backslash, tab and newline get a
/// backslash escape, so that a field never holds a tab or a newline.
pub open spec fn escape_char(c: char) -> Seq<char> {
    if c == '\\' {
        seq!['\\', '\\']
    } else if c == '\t' {
        seq!['\\', 't']
    } else if c == '\n' {
        seq!['\\', 'n']
    } else {
        seq![c]
    }
}

/// `s` with every character escaped.
pub open spec fn escape_seq(s: Seq<char>) -> Seq<char>
    decreases s.len(),
{
    if s.len() == 0 {
        Seq::<char>::empty()
    } else {
        escape_char(s[0]) + escape_seq(s.drop_first())
    }
}

/// Reads escapes back: `\t`, `\n` and `\\` stand for tab, newline and
/// backslash, a backslash before anything else stands for that character,
/// and a lone trailing backslash for itself.
pub open spec fn unescape_seq(s: Seq<char>) -> Seq<char>
    decreases s.len(),
{
    if s.len() == 0 {
        Seq::<char>::empty()
    } else if s[0] != '\\' {
        seq![s[0]] + unescape_seq(s.drop_first())
    } else if s.len() == 1 {
        seq!['\\']
    } else {
        let c = if s[1] == 't' {
            '\t'
        } else if s[1] == 'n' {
            '\n'
        } else {
            s[1]
        };
        seq![c] + unescape_seq(s.subrange(2, s.len() as int))
    }
}

pub proof fn lemma_escape_append(a: Seq<char>, b: Seq<char>)
    ensures
        escape_seq(a + b) == escape_seq(a) + escape_seq(b),
    decreases a.len(),
{
    if a.len() == 0 {
        assert(a + b == b);
    } else {
        assert((a + b).drop_first() == a.drop_first() + b);
        lemma_escape_append(a.drop_first(), b);
    }
}

/// Escaped text holds no tab and no newline.
pub proof fn law_escape_has_no_separators(s: Seq<char>)
    ensures
        !has_char(escape_seq(s), '\t'),
        !has_char(escape_seq(s), '\n'),
    decreases s.len(),
{
    if s.len() > 0 {
        law_escape_has_no_separators(s.drop_first());
        let e = escape_seq(s);
        let h = escape_char(s[0]);
        let r = escape_seq(s.drop_first());
        assert(e == h + r);
        assert forall|i: int| 0 <= i < e.len() implies e[i] != '\t' && e[i] != '\n' by {
            if i < h.len() {
                assert(e[i] == h[i]);
            } else {
                assert(e[i] == r[i - h.len()]);
            }
        }
    }
}

/// Unescaping escaped text gives the text back.
pub proof fn law_unescape_escape(s: Seq<char>)
    ensures
        unescape_seq(escape_seq(s)) == s,
    decreases s.len(),
{
    if s.len() > 0 {
        let c = s[0];
        let rest = s.drop_first();
        law_unescape_escape(rest);
        let r = escape_seq(rest);
        let e = escape_char(c) + r;
        assert(escape_seq(s) == e);
        if c == '\\' || c == '\t' || c == '\n' {
            assert(e.subrange(2, e.len() as int) == r);
        } else {
            assert(e.drop_first() == r);
        }
        assert(s == seq![c] + rest);
    }
}

/// `s` with backslash, tab and newline escaped.
pub fn escape(s: &str) -> (res: String)
    ensures
        res@ == escape_seq(s@),
{
    let cs = chars_of(s);
    let mut out: Vec<char> = Vec::new();
    let mut i: usize = 0;
    while i < cs.len()
        invariant
            i <= cs@.len(),
            out@ == escape_seq(cs@.subrange(0, i as int)),
        decreases cs@.len() - i,
    {
        let c = cs[i];
        proof {
            let a = cs@.subrange(0, i as int);
            lemma_escape_append(a, seq![c]);
            assert(cs@.subrange(0, i + 1) == a + seq![c]);
            assert(seq![c].drop_first() == Seq::<char>::empty());
            assert(escape_seq(seq![c]) == escape_char(c) + escape_seq(Seq::<char>::empty()));
            assert(escape_char(c) + Seq::<char>::empty() == escape_char(c));
        }
        if c == '\\' {
            out.push('\\');
            out.push('\\');
        } else if c == '\t' {
            out.push('\\');
            out.push('t');
        } else if c == '\n' {
            out.push('\\');
            out.push('n');
        } else {
            out.push(c);
        }
        i += 1;
    }
    proof {
        assert(cs@.subrange(0, cs@.len() as int) == cs@);
    }
    string_of(out.as_slice())
}

/// `s` with its escapes read back; see `unescape_seq`.
pub fn unescape(s: &str) -> (res: String)
    ensures
        res@ == unescape_seq(s@),
{
    let cs = chars_of(s);
    let mut out: Vec<char> = Vec::new();
    let mut i: usize = 0;
    proof {
        assert(cs@.subrange(0, cs@.len() as int) == cs@);
        assert(out@ + cs@ == cs@);
    }
    while i < cs.len()
        invariant
            i <= cs@.len(),
            out@ + unescape_seq(cs@.subrange(i as int, cs@.len() as int)) == unescape_seq(cs@),
        decreases cs@.len() - i,
    {
        let ghost rest = cs@.subrange(i as int, cs@.len() as int);
        let c = cs[i];
        if c != '\\' {
            proof {
                assert(rest.drop_first() == cs@.subrange(i + 1, cs@.len() as int));
            }
            out.push(c);
            i += 1;
        } else if i + 1 == cs.len() {
            out.push('\\');
            i += 1;
            proof {
                assert(cs@.subrange(i as int, cs@.len() as int) == Seq::<char>::empty());
            }
        } else {
            let n = cs[i + 1];
            let r = if n == 't' {
                '\t'
            } else if n == 'n' {
                '\n'
            } else {
                n
            };
            proof {
                assert(rest.subrange(2, rest.len() as int) == cs@.subrange(
                    i + 2,
                    cs@.len() as int,
                ));
            }
            out.push(r);
            i += 2;
        }
    }
    proof {
        assert(cs@.subrange(cs@.len() as int, cs@.len() as int) == Seq::<char>::empty());
        assert(out@ + Seq::<char>::empty() == out@);
    }
    string_of(out.as_slice())
}

/// First index at or after `i` that holds a tab (or the length).
pub open spec fn find_tab(s: Seq<char>, i: int) -> int
    decreases s.len() - i,
{
    if 0 <= i < s.len() && s[i] != '\t' {
        find_tab(s, i + 1)
    } else {
        i
    }
}

pub proof fn lemma_find_tab(s: Seq<char>, i: int)
    requires
        0 <= i <= s.len(),
    ensures
        i <= find_tab(s, i) <= s.len(),
        forall|k: int| i <= k < find_tab(s, i) ==> #[trigger] s[k] != '\t',
        find_tab(s, i) < s.len() ==> s[find_tab(s, i)] == '\t',
    decreases s.len() - i,
{
    if i < s.len() && s[i] != '\t' {
        lemma_find_tab(s, i + 1);
    }
}

/// The first tab after a tab-free head is right after it.
proof fn lemma_find_tab_after_head(h: Seq<char>, rest: Seq<char>)
    requires
        !has_char(h, '\t'),
    ensures
        find_tab(h + seq!['\t'] + rest, 0) == h.len(),
{
    let s = h + seq!['\t'] + rest;
    lemma_find_tab(s, 0);
    let j = find_tab(s, 0);
    if j < h.len() {
        assert(s[j] == h[j]);
    }
    if j > h.len() {
        assert(s[h.len() as int] == '\t');
    }
}

/// `s` cut at its tabs into at most `n` pieces, as `str::splitn(n, '\t')`
/// cuts it: the last piece keeps any tabs that remain.
pub open spec fn splitn_tab(s: Seq<char>, n: nat) -> Seq<Seq<char>>
    decreases n,
{
    if n <= 1 {
        seq![s]
    } else {
        let j = find_tab(s, 0);
        if j >= s.len() {
            seq![s]
        } else {
            seq![s.subrange(0, j)] + splitn_tab(s.subrange(j + 1, s.len() as int), (n - 1) as nat)
        }
    }
}

/// The pieces joined with a tab between each two.
pub open spec fn join_tab(ps: Seq<Seq<char>>) -> Seq<char>
    decreases ps.len(),
{
    if ps.len() <= 1 {
        if ps.len() == 1 {
            ps[0]
        } else {
            Seq::<char>::empty()
        }
    } else {
        ps[0] + seq!['\t'] + join_tab(ps.drop_first())
    }
}

/// Cutting pieces joined by tabs gives the pieces back, when none but the
/// last holds a tab.
pub proof fn lemma_split_join(ps: Seq<Seq<char>>)
    requires
        ps.len() >= 1,
        forall|i: int| 0 <= i < ps.len() - 1 ==> !has_char(#[trigger] ps[i], '\t'),
    ensures
        splitn_tab(join_tab(ps), ps.len() as nat) == ps,
    decreases ps.len(),
{
    if ps.len() > 1 {
        let rest = ps.drop_first();
        assert forall|i: int| 0 <= i < rest.len() - 1 implies !has_char(
            #[trigger] rest[i],
            '\t',
        ) by {
            assert(rest[i] == ps[i + 1]);
        }
        lemma_split_join(rest);
        let s = join_tab(ps);
        assert(!has_char(ps[0], '\t'));
        lemma_find_tab_after_head(ps[0], join_tab(rest));
        let j = ps[0].len() as int;
        assert(s.subrange(0, j) == ps[0]);
        assert(s.subrange(j + 1, s.len() as int) == join_tab(rest));
        assert(seq![ps[0]] + rest == ps);
    }
}

/// `splitn_tab` computed.
pub(crate) fn split_fields(s: &[char], n: usize) -> (res: Vec<Vec<char>>)
    ensures
        res@.map_values(|v: Vec<char>| v@) == splitn_tab(s@, n as nat),
    decreases n,
{
    let mut j: usize = 0;
    while j < s.len() && s[j] != '\t'
        invariant
            j <= s@.len(),
            find_tab(s@, j as int) == find_tab(s@, 0),
        decreases s@.len() - j,
    {
        j += 1;
    }
    if n <= 1 || j >= s.len() {
        let whole = slice_range(s, 0, s.len());
        let mut out: Vec<Vec<char>> = Vec::new();
        out.push(whole);
        proof {
            assert(s@.subrange(0, s@.len() as int) == s@);
            assert(out@.map_values(|v: Vec<char>| v@) =~= seq![s@]);
        }
        return out;
    }
    let head = slice_range(s, 0, j);
    let tail = slice_range(s, j + 1, s.len());
    let mut rest = split_fields(tail.as_slice(), n - 1);
    let mut out: Vec<Vec<char>> = Vec::new();
    out.push(head);
    out.append(&mut rest);
    proof {
        let rv = splitn_tab(tail@, (n - 1) as nat);
        assert(out@.map_values(|v: Vec<char>| v@) =~= seq![head@] + rv);
    }
    out
}

/// Fields of a todo that its line in the file records: moments as seconds
/// and nanoseconds, dates as day numbers.
pub struct Record {
    pub done: bool,
    pub created: (int, int),
    pub due: Option<int>,
    pub title: Seq<char>,
    pub details: Seq<char>,
    pub completed: Option<(int, int)>,
    pub archived: Option<(int, int)>,
}

pub open spec fn instant(s: Stamp) -> (int, int) {
    (s.secs as int, s.nanos as int)
}

pub open spec fn opt_instant(s: Option<Stamp>) -> Option<(int, int)> {
    match s {
        Some(t) => Some(instant(t)),
        None => None,
    }
}

pub open spec fn parsed_instant(p: Option<(int, int, int)>) -> Option<(int, int)> {
    match p {
        Some(q) => Some((q.0, q.1)),
        None => None,
    }
}

pub open spec fn opt_days(d: Option<Date>) -> Option<int> {
    match d {
        Some(x) => Some(x@),
        None => None,
    }
}

/// A todo.
#[derive(Debug, Clone)]
pub struct Todo {
    /// Session-local handle, used to keep the selection on the same todo
    /// across re-sorts. Not written to the file.
    pub id: u64,
    pub done: bool,
    pub created: Stamp,
    pub due: Option<Date>,
    pub title: String,
    pub details: String,
    /// When the box was ticked. Cleared if it gets unticked.
    pub completed: Option<Stamp>,
    /// Set once the todo has been swept or sent to history.
    pub archived: Option<Stamp>,
    /// Screen state, not written to the file: every todo starts collapsed.
    pub expanded: bool,
}

/// What the line of `t` records.
pub open spec fn record_of(t: Todo) -> Record {
    Record {
        done: t.done,
        created: instant(t.created),
        due: opt_days(t.due),
        title: t.title@,
        details: t.details@,
        completed: opt_instant(t.completed),
        archived: opt_instant(t.archived),
    }
}

pub open spec fn stamp_field(s: Option<Stamp>) -> Seq<char> {
    match s {
        Some(t) => spec_rfc3339(t.secs as int, t.nanos as int, t.offset as int),
        None => "-"@,
    }
}

pub open spec fn due_field(d: Option<Date>) -> Seq<char> {
    match d {
        Some(x) => spec_display(x@),
        None => "-"@,
    }
}

/// The fields of the line for `t`, in order. Fields are appended, never
/// reordered: a file written before the last two existed still loads.
pub open spec fn fields_of(t: Todo) -> Seq<Seq<char>> {
    seq![
        if t.done { "1"@ } else { "0"@ },
        spec_rfc3339(t.created.secs as int, t.created.nanos as int, t.created.offset as int),
        due_field(t.due),
        escape_seq(t.title@),
        escape_seq(t.details@),
        stamp_field(t.completed),
        stamp_field(t.archived),
    ]
}

/// The line for `t` in the file.
pub open spec fn encode_spec(t: Todo) -> Seq<char> {
    join_tab(fields_of(t))
}

/// What a line of the file records, if it records a todo at all: it needs a
/// tick, a creation moment and a due field that read, and a title; details,
/// completion and filing may be missing, and the last two are dropped if
/// they do not read.
pub open spec fn decode_spec(line: Seq<char>) -> Option<Record> {
    let f = splitn_tab(line, 7);
    if f.len() < 4 || spec_parse_rfc3339(f[1]) is None || (f[2] != "-"@ && spec_parse_date(f[2])
        is None) {
        None
    } else {
        Some(
            Record {
                done: f[0] == "1"@,
                created: parsed_instant(spec_parse_rfc3339(f[1]))->0,
                due: if f[2] == "-"@ {
                    None
                } else {
                    spec_parse_date(f[2])
                },
                title: unescape_seq(f[3]),
                details: if f.len() > 4 {
                    unescape_seq(f[4])
                } else {
                    Seq::<char>::empty()
                },
                completed: if f.len() > 5 && f[5] != "-"@ {
                    parsed_instant(spec_parse_rfc3339(f[5]))
                } else {
                    None
                },
                archived: if f.len() > 6 && f[6] != "-"@ {
                    parsed_instant(spec_parse_rfc3339(f[6]))
                } else {
                    None
                },
            },
        )
    }
}

/// Whether the line of `t` carries every field exactly: its moments are
/// writable and its due date, if any, lies in years 0 to 9999.
pub open spec fn storable(t: Todo) -> bool {
    &&& writable(t.created)
    &&& (t.completed matches Some(c) ==> writable(c))
    &&& (t.archived matches Some(a) ==> writable(a))
    &&& (t.due matches Some(d) ==> 0 <= year_of(d@) <= 9999)
}

fn opt_stamp_text(s: Option<Stamp>) -> (res: String)
    ensures
        res@ == stamp_field(s),
        !has_char(res@, '\t'),
        !has_char(res@, '\n'),
        !has_char(res@, '\r'),
        s is None ==> res@ == "-"@,
        s matches Some(t) ==> (writable(t) ==> res@.len() >= 20),
        s matches Some(t) ==> (writable(t) ==> spec_parse_rfc3339(res@) == Some(
            (t.secs as int, t.nanos as int, t.offset as int),
        )),
{
    match s {
        Some(t) => t.rfc3339(),
        None => {
            proof {
                reveal_strlit("-");
            }
            "-".to_owned()
        },
    }
}

pub(crate) fn prepend_field(head: &str, rest: Vec<char>) -> (res: Vec<char>)
    ensures
        res@ == head@ + seq!['\t'] + rest@,
{
    let mut out = chars_of(head);
    out.push('\t');
    let mut r = rest;
    out.append(&mut r);
    out
}

pub(crate) proof fn lemma_join_step(ps: Seq<Seq<char>>, k: int)
    requires
        0 <= k < ps.len() - 1,
    ensures
        join_tab(ps.subrange(k, ps.len() as int)) == ps[k] + seq!['\t'] + join_tab(
            ps.subrange(k + 1, ps.len() as int),
        ),
{
    let a = ps.subrange(k, ps.len() as int);
    assert(a.drop_first() == ps.subrange(k + 1, ps.len() as int));
    assert(a[0] == ps[k]);
}

/// A line as the file needs it: not blank, holding no newline, and not
/// ending in a carriage return.
pub open spec fn good_line(l: Seq<char>) -> bool {
    &&& l.len() > 0
    &&& !is_ws(l[0])
    &&& !has_char(l, '\n')
    &&& l.last() != '\r'
}

proof fn lemma_no_char_concat(a: Seq<char>, b: Seq<char>, c: char)
    requires
        !has_char(a, c),
        !has_char(b, c),
    ensures
        !has_char(a + b, c),
{
    if has_char(a + b, c) {
        let i = choose|i: int| 0 <= i < (a + b).len() && (a + b)[i] == c;
        if i < a.len() {
            assert(a[i] == c);
        } else {
            assert(b[i - a.len()] == c);
        }
    }
}

proof fn lemma_join_tab_shape(qs: Seq<Seq<char>>)
    requires
        qs.len() >= 1,
        forall|j: int| 0 <= j < qs.len() ==> !has_char(#[trigger] qs[j], '\n'),
    ensures
        !has_char(join_tab(qs), '\n'),
        qs.last().len() > 0 ==> join_tab(qs).len() > 0 && join_tab(qs).last() == qs.last().last(),
        qs.len() > 1 && qs.last().len() == 0 ==> join_tab(qs).len() > 0 && join_tab(qs).last()
            == '\t',
        qs[0].len() > 0 ==> join_tab(qs).len() > 0 && join_tab(qs)[0] == qs[0][0],
    decreases qs.len(),
{
    let t = seq!['\t'];
    assert(!has_char(t, '\n')) by {
        if has_char(t, '\n') {
            let i = choose|i: int| 0 <= i < t.len() && t[i] == '\n';
        }
    }
    if qs.len() > 1 {
        let r = qs.drop_first();
        assert forall|j: int| 0 <= j < r.len() implies !has_char(#[trigger] r[j], '\n') by {
            assert(r[j] == qs[j + 1]);
        }
        lemma_join_tab_shape(r);
        assert(!has_char(qs[0], '\n'));
        lemma_no_char_concat(qs[0], t, '\n');
        lemma_no_char_concat(qs[0] + t, join_tab(r), '\n');
    }
}

proof fn lemma_good_line(ps: Seq<Seq<char>>, f1: Seq<char>, f2: Seq<char>, f5: Seq<char>, f6: Seq<char>)
    requires
        ps.len() == 7,
        ps[0] == "1"@ || ps[0] == "0"@,
        ps[1] == f1,
        ps[2] == f2,
        ps[5] == f5,
        ps[6] == f6,
        !has_char(f1, '\n'),
        !has_char(f2, '\n'),
        !has_char(f5, '\n'),
        !has_char(f6, '\n'),
        !has_char(f6, '\r'),
        !has_char(ps[3], '\n'),
        !has_char(ps[4], '\n'),
    ensures
        good_line(join_tab(ps)),
{
    reveal_strlit("1");
    reveal_strlit("0");
    let t = seq!['\t'];
    assert(!has_char(t, '\n')) by {
        if has_char(t, '\n') {
            let i = choose|i: int| 0 <= i < t.len() && t[i] == '\n';
        }
    }
    assert(!has_char(ps[0], '\n')) by {
        if has_char(ps[0], '\n') {
            let i = choose|i: int| 0 <= i < ps[0].len() && ps[0][i] == '\n';
        }
    }
    assert forall|j: int| 0 <= j < ps.len() implies !has_char(#[trigger] ps[j], '\n') by {
        if j == 0 {
        } else if j == 1 {
        } else if j == 2 {
        } else if j == 3 {
        } else if j == 4 {
        } else if j == 5 {
        } else {
        }
    }
    lemma_join_tab_shape(ps);
    assert(ps[0].len() == 1);
    if f6.len() > 0 {
        assert(f6[f6.len() - 1] != '\r') by {
            if f6[f6.len() - 1] == '\r' {
                assert(has_char(f6, '\r'));
            }
        }
    }
}

impl Todo {
    /// A new, unticked todo called `title`, made at `now`.
    pub fn new_at(id: u64, title: String, now: Stamp) -> (res: Todo)
        ensures
            res.id == id,
            !res.done,
            res.created == now,
            res.due is None,
            res.title@ == title@,
            res.details@ == Seq::<char>::empty(),
            res.completed is None,
            res.archived is None,
            !res.expanded,
    {
        Todo {
            id,
            done: false,
            created: now,
            due: None,
            title,
            details: String::new(),
            completed: None,
            archived: None,
            expanded: false,
        }
    }

    /// A new, unticked todo called `title`, made now.
    pub fn new(id: u64, title: String) -> (res: Todo)
        ensures
            res.id == id,
            !res.done,
            res.due is None,
            res.title@ == title@,
            res.details@ == Seq::<char>::empty(),
            res.completed is None,
            res.archived is None,
            !res.expanded,
    {
        Todo::new_at(id, title, Stamp::now())
    }

    /// The moment this todo earned its place in history: when it was ticked
    /// off if it ever was, otherwise when it was filed away by hand.
    pub fn filed_at(&self) -> (res: Option<Stamp>)
        ensures
            res == (match self.completed {
                Some(c) => Some(c),
                None => self.archived,
            }),
    {
        match self.completed {
            Some(c) => Some(c),
            None => self.archived,
        }
    }

    /// The line for this todo in the file: seven tab-separated fields. A
    /// storable todo reads back from it as it was.
    pub fn encode(&self) -> (res: String)
        ensures
            res@ == encode_spec(*self),
            storable(*self) ==> decode_spec(res@) == Some(record_of(*self)),
            good_line(res@),
    {
        let f0 = if self.done {
            "1"
        } else {
            "0"
        };
        let f1 = self.created.rfc3339();
        let f2 = match self.due {
            Some(d) => d.display(),
            None => "-".to_owned(),
        };
        let f3 = escape(self.title.as_str());
        let f4 = escape(self.details.as_str());
        let f5 = opt_stamp_text(self.completed);
        let f6 = opt_stamp_text(self.archived);
        let ghost ps = fields_of(*self);
        proof {
            reveal_strlit("1");
            reveal_strlit("0");
            reveal_strlit("-");
            assert(ps[0] == f0@);
            assert(ps[2] == f2@);
        }
        let mut out = chars_of(f6.as_str());
        proof {
            assert(ps.subrange(6, 7) =~= seq![ps[6]]);
        }
        out = prepend_field(f5.as_str(), out);
        proof {
            lemma_join_step(ps, 5);
        }
        out = prepend_field(f4.as_str(), out);
        proof {
            lemma_join_step(ps, 4);
        }
        out = prepend_field(f3.as_str(), out);
        proof {
            lemma_join_step(ps, 3);
        }
        out = prepend_field(f2.as_str(), out);
        proof {
            lemma_join_step(ps, 2);
        }
        out = prepend_field(f1.as_str(), out);
        proof {
            lemma_join_step(ps, 1);
        }
        out = prepend_field(f0, out);
        proof {
            lemma_join_step(ps, 0);
            assert(ps.subrange(0, 7) == ps);
            if storable(*self) {
                lemma_encode_round_trip(*self, f1@, f2@, f5@, f6@);
            }
            law_escape_has_no_separators(self.title@);
            law_escape_has_no_separators(self.details@);
            lemma_good_line(ps, f1@, f2@, f5@, f6@);
        }
        string_of(out.as_slice())
    }

    /// The todo that `line` records, with handle `id`, collapsed; `None`
    /// when the line records none.
    pub fn decode(line: &str, id: u64) -> (res: Option<Todo>)
        ensures
            res is Some <==> decode_spec(line@) is Some,
            res matches Some(t) ==> record_of(t) == decode_spec(line@)->0 && t.id == id
                && !t.expanded,
    {
        let cs = chars_of(line);
        let f = split_fields(cs.as_slice(), 7);
        let ghost fv = f@.map_values(|v: Vec<char>| v@);
        proof {
            assert(fv == splitn_tab(line@, 7));
            assert(fv.len() == f@.len());
        }
        if f.len() < 4 {
            return None;
        }
        proof {
            assert(fv[0] == f@[0]@);
            assert(fv[1] == f@[1]@);
            assert(fv[2] == f@[2]@);
            assert(fv[3] == f@[3]@);
        }
        let one = chars_of("1");
        let done = chars_eq(f[0].as_slice(), one.as_slice());
        let created = match parse_stamp(string_of(f[1].as_slice()).as_str()) {
            Some(s) => s,
            None => {
                return None;
            },
        };
        let dash = chars_of("-");
        let due = if chars_eq(f[2].as_slice(), dash.as_slice()) {
            None
        } else {
            match Date::parse(string_of(f[2].as_slice()).as_str()) {
                Some(d) => Some(d),
                None => {
                    return None;
                },
            }
        };
        let title = unescape(string_of(f[3].as_slice()).as_str());
        let details = if f.len() > 4 {
            proof {
                assert(fv[4] == f@[4]@);
            }
            unescape(string_of(f[4].as_slice()).as_str())
        } else {
            String::new()
        };
        let completed = if f.len() > 5 && !chars_eq(f[5].as_slice(), dash.as_slice()) {
            proof {
                assert(fv[5] == f@[5]@);
            }
            parse_stamp(string_of(f[5].as_slice()).as_str())
        } else {
            None
        };
        let archived = if f.len() > 6 && !chars_eq(f[6].as_slice(), dash.as_slice()) {
            proof {
                assert(fv[6] == f@[6]@);
            }
            parse_stamp(string_of(f[6].as_slice()).as_str())
        } else {
            None
        };
        Some(
            Todo {
                id,
                done,
                created,
                due,
                title,
                details,
                completed,
                archived,
                expanded: false,
            },
        )
    }
}

proof fn lemma_encode_round_trip(
    t: Todo,
    f1: Seq<char>,
    f2: Seq<char>,
    f5: Seq<char>,
    f6: Seq<char>,
)
    requires
        storable(t),
        f1 == spec_rfc3339(t.created.secs as int, t.created.nanos as int, t.created.offset as int),
        !has_char(f1, '\t'),
        spec_parse_rfc3339(f1) == Some(
            (t.created.secs as int, t.created.nanos as int, t.created.offset as int),
        ),
        f2 == due_field(t.due),
        !has_char(f2, '\t'),
        t.due is Some ==> f2.len() >= 10,
        t.due matches Some(d) ==> spec_parse_date(f2) == Some(d@),
        f5 == stamp_field(t.completed),
        !has_char(f5, '\t'),
        t.completed is None ==> f5 == "-"@,
        t.completed is Some ==> f5.len() >= 20,
        t.archived is Some ==> f6.len() >= 20,
        t.completed matches Some(c) ==> spec_parse_rfc3339(f5) == Some(
            (c.secs as int, c.nanos as int, c.offset as int),
        ),
        f6 == stamp_field(t.archived),
        t.archived is None ==> f6 == "-"@,
        t.archived matches Some(a) ==> spec_parse_rfc3339(f6) == Some(
            (a.secs as int, a.nanos as int, a.offset as int),
        ),
    ensures
        decode_spec(encode_spec(t)) == Some(record_of(t)),
{
    reveal_strlit("1");
    reveal_strlit("0");
    reveal_strlit("-");
    let ps = fields_of(t);
    law_escape_has_no_separators(t.title@);
    law_escape_has_no_separators(t.details@);
    law_unescape_escape(t.title@);
    law_unescape_escape(t.details@);
    assert(!has_char(ps[0], '\t')) by {
        if has_char(ps[0], '\t') {
            let i = choose|i: int| 0 <= i < ps[0].len() && ps[0][i] == '\t';
            assert(ps[0].len() == 1);
        }
    }
    assert(ps[1] == f1);
    assert(ps[2] == f2);
    assert(ps[5] == f5);
    assert(ps[6] == f6);
    assert(forall|i: int| 0 <= i < ps.len() - 1 ==> !has_char(#[trigger] ps[i], '\t')) by {
        assert forall|i: int| 0 <= i < ps.len() - 1 implies !has_char(#[trigger] ps[i], '\t') by {
            if i == 0 {
            } else if i == 1 {
            } else if i == 2 {
            } else if i == 3 {
            } else if i == 4 {
            } else {
            }
        }
    }
    lemma_split_join(ps);
    assert(splitn_tab(encode_spec(t), 7) == ps);
    if t.due is None {
        assert(ps[2] == "-"@);
    } else {
        assert(ps[2] != "-"@) by {
            assert(ps[2].len() >= 10);
        }
    }
    if t.completed is Some {
        assert(ps[5] != "-"@) by {
            assert(ps[5].len() >= 20);
        }
    }
    if t.archived is Some {
        assert(ps[6] != "-"@) by {
            assert(ps[6].len() >= 20);
        }
    }
    if t.done {
        assert(ps[0] == "1"@);
    } else {
        assert(ps[0] != "1"@) by {
            assert(ps[0][0] == '0');
        }
    }
}

/// Lexicographic order on sequences of integers: the first difference
/// decides, and a proper prefix comes first.
pub open spec fn lex_lt(a: Seq<int>, b: Seq<int>) -> bool
    decreases a.len(),
{
    if b.len() == 0 {
        false
    } else if a.len() == 0 {
        true
    } else if a[0] != b[0] {
        a[0] < b[0]
    } else {
        lex_lt(a.drop_first(), b.drop_first())
    }
}

pub proof fn lemma_lex_irreflexive(a: Seq<int>)
    ensures
        !lex_lt(a, a),
    decreases a.len(),
{
    if a.len() > 0 {
        lemma_lex_irreflexive(a.drop_first());
    }
}

pub proof fn lemma_lex_transitive(a: Seq<int>, b: Seq<int>, c: Seq<int>)
    requires
        lex_lt(a, b),
        lex_lt(b, c),
    ensures
        lex_lt(a, c),
    decreases a.len(),
{
    if a.len() > 0 && b.len() > 0 && c.len() > 0 && a[0] == b[0] && b[0] == c[0] {
        lemma_lex_transitive(a.drop_first(), b.drop_first(), c.drop_first());
    }
}

pub proof fn lemma_lex_total(a: Seq<int>, b: Seq<int>)
    ensures
        a == b || lex_lt(a, b) || lex_lt(b, a),
    decreases a.len(),
{
    if a.len() > 0 && b.len() > 0 && a[0] == b[0] {
        lemma_lex_total(a.drop_first(), b.drop_first());
        if a.drop_first() == b.drop_first() {
            assert(a == seq![a[0]] + a.drop_first());
            assert(b == seq![b[0]] + b.drop_first());
        }
    } else if a.len() == 0 && b.len() == 0 {
        assert(a == b);
    }
}

/// Which order a list is kept in.
#[derive(Debug, Clone, Copy, PartialEq, Eq, Structural)]
pub enum Order {
    /// Oldest first.
    Created,
    /// Soonest due first, undated last, ties by creation.
    Due,
    /// By title, ignoring case.
    Title,
    /// Most recently filed first, a todo never filed counting from its
    /// creation.
    NewestFiled,
}

pub open spec fn order_of(sort: Sort) -> Order {
    match sort {
        Sort::Created => Order::Created,
        Sort::Due => Order::Due,
        Sort::Alpha => Order::Title,
    }
}

pub open spec fn stamp_key(s: Stamp) -> Seq<int> {
    seq![s.secs as int, s.nanos as int]
}

/// When `t` was filed, or made if it never was.
pub open spec fn filed_or_created(t: Todo) -> Stamp {
    match t.completed {
        Some(c) => c,
        None => match t.archived {
            Some(a) => a,
            None => t.created,
        },
    }
}

pub open spec fn char_codes(s: Seq<char>) -> Seq<int> {
    s.map_values(|c: char| (c as u32) as int)
}

/// The key that `order` sorts `t` by. Titles compare by their lower-case
/// characters' code points, which is how `String` orders them.
pub open spec fn sort_key(t: Todo, order: Order) -> Seq<int> {
    match order {
        Order::Created => stamp_key(t.created),
        Order::Due => match t.due {
            Some(d) => seq![0, d@] + stamp_key(t.created),
            None => seq![1, 0] + stamp_key(t.created),
        },
        Order::Title => char_codes(crate::date::spec_lowercase(t.title@)),
        Order::NewestFiled => stamp_key(filed_or_created(t)),
    }
}

/// Whether `order` puts key `a` strictly before key `b`.
pub open spec fn key_before(order: Order, a: Seq<int>, b: Seq<int>) -> bool {
    if order == Order::NewestFiled {
        lex_lt(b, a)
    } else {
        lex_lt(a, b)
    }
}

/// Whether `order` puts `a` strictly before `b`.
pub open spec fn before(order: Order, a: Todo, b: Todo) -> bool {
    key_before(order, sort_key(a, order), sort_key(b, order))
}

/// `v` is in `order`: nothing comes after something it should precede.
pub open spec fn sorted(v: Seq<Todo>, order: Order) -> bool {
    forall|i: int, j: int| 0 <= i < j < v.len() ==> !before(order, #[trigger] v[j], #[trigger] v[i])
}

proof fn lemma_before_facts(order: Order, a: Seq<int>, b: Seq<int>, c: Seq<int>)
    ensures
        !key_before(order, a, a),
        key_before(order, a, b) ==> !key_before(order, b, a),
        key_before(order, a, b) && !key_before(order, c, b) ==> key_before(order, a, c),
        !key_before(order, a, b) && !key_before(order, b, c) ==> !key_before(order, a, c),
{
    lemma_lex_irreflexive(a);
    lemma_lex_total(a, b);
    lemma_lex_total(b, c);
    lemma_lex_total(a, c);
    if lex_lt(a, b) && lex_lt(b, a) {
        lemma_lex_transitive(a, b, a);
    }
    if lex_lt(a, b) && lex_lt(b, c) {
        lemma_lex_transitive(a, b, c);
    }
    if lex_lt(c, b) && lex_lt(b, a) {
        lemma_lex_transitive(c, b, a);
    }
    if lex_lt(b, c) && lex_lt(c, a) {
        lemma_lex_transitive(b, c, a);
    }
    if lex_lt(c, a) && lex_lt(a, b) {
        lemma_lex_transitive(c, a, b);
    }
    if lex_lt(a, c) && lex_lt(c, b) {
        lemma_lex_transitive(a, c, b);
    }
    if lex_lt(b, a) && lex_lt(a, c) {
        lemma_lex_transitive(b, a, c);
    }
}

/// The first position in `s`, from `q` on, that holds something `x` goes
/// before in `order` (the length when there is none).
pub open spec fn first_after(s: Seq<Todo>, x: Todo, order: Order, q: int) -> int
    decreases s.len() - q,
{
    if 0 <= q < s.len() {
        if before(order, x, s[q]) {
            q
        } else {
            first_after(s, x, order, q + 1)
        }
    } else {
        s.len() as int
    }
}

/// `s` in `order`, each item in turn placed just before the first item
/// already placed that it goes before: items that compare equal keep their
/// relative order.
pub open spec fn insertion_sorted(s: Seq<Todo>, order: Order) -> Seq<Todo>
    decreases s.len(),
{
    if s.len() == 0 {
        s
    } else {
        let r = insertion_sorted(s.drop_last(), order);
        r.insert(first_after(r, s.last(), order, 0), s.last())
    }
}

proof fn lemma_first_after(s: Seq<Todo>, x: Todo, order: Order, p: int, q: int)
    requires
        0 <= q <= p <= s.len(),
        forall|k: int| q <= k < p ==> !before(order, x, #[trigger] s[k]),
        p == s.len() || before(order, x, s[p]),
    ensures
        first_after(s, x, order, q) == p,
    decreases p - q,
{
    if q < p {
        lemma_first_after(s, x, order, p, q + 1);
    }
}

proof fn lemma_insertion_sorted_len(s: Seq<Todo>, order: Order)
    ensures
        insertion_sorted(s, order).len() == s.len(),
        0 <= first_after(insertion_sorted(s.drop_last(), order), s.last(), order, 0)
            <= insertion_sorted(s.drop_last(), order).len(),
    decreases s.len(),
{
    if s.len() > 0 {
        lemma_insertion_sorted_len(s.drop_last(), order);
        lemma_first_after_bounds(insertion_sorted(s.drop_last(), order), s.last(), order, 0);
    } else {
        lemma_first_after_bounds(insertion_sorted(s.drop_last(), order), s.last(), order, 0);
    }
}

proof fn lemma_first_after_bounds(s: Seq<Todo>, x: Todo, order: Order, q: int)
    requires
        0 <= q,
    ensures
        0 <= first_after(s, x, order, q) <= s.len(),
    decreases s.len() - q,
{
    if q < s.len() {
        lemma_first_after_bounds(s, x, order, q + 1);
    }
}

/// Sorting keeps every todo: the sorted list holds what the list held.
pub proof fn lemma_insertion_sorted_multiset(s: Seq<Todo>, order: Order)
    ensures
        insertion_sorted(s, order).to_multiset() == s.to_multiset(),
    decreases s.len(),
{
    if s.len() > 0 {
        let r = insertion_sorted(s.drop_last(), order);
        lemma_insertion_sorted_multiset(s.drop_last(), order);
        lemma_insertion_sorted_len(s, order);
        vstd::seq_lib::to_multiset_insert(r, first_after(r, s.last(), order, 0), s.last());
        vstd::seq_lib::to_multiset_build(s.drop_last(), s.last());
        assert(s.drop_last().push(s.last()) == s);
    }
}

/// A list already in order is left exactly as it is by sorting it again:
/// the list never reshuffles for nothing.
pub proof fn law_sort_keeps_sorted_list(s: Seq<Todo>, order: Order)
    requires
        sorted(s, order),
    ensures
        insertion_sorted(s, order) == s,
    decreases s.len(),
{
    if s.len() > 0 {
        let p = s.drop_last();
        assert(sorted(p, order)) by {
            assert forall|i: int, j: int| 0 <= i < j < p.len() implies !before(
                order,
                #[trigger] p[j],
                #[trigger] p[i],
            ) by {
                assert(p[i] == s[i]);
                assert(p[j] == s[j]);
            }
        }
        law_sort_keeps_sorted_list(p, order);
        assert forall|k: int| 0 <= k < p.len() implies !before(order, s.last(), #[trigger] p[k]) by {
            assert(p[k] == s[k]);
            assert(s.last() == s[s.len() - 1]);
        }
        lemma_first_after(p, s.last(), order, p.len() as int, 0);
        assert(p.insert(p.len() as int, s.last()) =~= s);
    }
}

/// A todo brought back from history is unticked, so a sweep straight after
/// leaves it on the list.
pub proof fn law_restored_survives_sweep(todos: Seq<Todo>, t: Todo, order: Order)
    ensures
        unticked(insertion_sorted(todos.push(revived(t)), order)).contains(revived(t)),
{
    let s = insertion_sorted(todos.push(revived(t)), order);
    lemma_insertion_sorted_multiset(todos.push(revived(t)), order);
    vstd::seq_lib::to_multiset_build(todos, revived(t));
    vstd::seq_lib::to_multiset_contains(s, revived(t));
    broadcast use vstd::multiset::group_multiset_axioms;
    assert(s.contains(revived(t)));
    lemma_unticked_keeps(s, revived(t));
}

proof fn lemma_unticked_keeps(s: Seq<Todo>, x: Todo)
    requires
        s.contains(x),
        !x.done,
    ensures
        unticked(s).contains(x),
    decreases s.len(),
{
    if s[0] == x {
        assert(unticked(s)[0] == x);
    } else {
        let k = choose|k: int| 0 <= k < s.len() && s[k] == x;
        assert(s.drop_first()[k - 1] == x);
        lemma_unticked_keeps(s.drop_first(), x);
        let u = unticked(s.drop_first());
        let j = choose|j: int| 0 <= j < u.len() && u[j] == x;
        let pre = if s[0].done {
            Seq::<Todo>::empty()
        } else {
            seq![s[0]]
        };
        assert((pre + u)[pre.len() + j] == x);
    }
}

/// In a list sorted by due date, undated todos sink to the bottom: nothing
/// undated comes before something dated.
pub proof fn law_undated_sink(v: Seq<Todo>, i: int, j: int)
    requires
        sorted(v, Order::Due),
        0 <= i < j < v.len(),
        v[j].due is Some,
    ensures
        v[i].due is Some,
{
    if v[i].due is None {
        let a = sort_key(v[j], Order::Due);
        let b = sort_key(v[i], Order::Due);
        assert(a[0] == 0 && b[0] == 1);
        assert(lex_lt(a, b));
        assert(before(Order::Due, v[j], v[i]));
    }
}

/// History reads newest first: in a history in its order, each entry was
/// filed (or, never filed, made) no earlier than the entries after it.
pub proof fn law_history_newest_first(v: Seq<Todo>, i: int, j: int)
    requires
        sorted(v, Order::NewestFiled),
        0 <= i < j < v.len(),
    ensures
        ({
            let a = filed_or_created(v[i]);
            let b = filed_or_created(v[j]);
            b.secs < a.secs || (b.secs == a.secs && b.nanos <= a.nanos)
        }),
{
    let a = filed_or_created(v[i]);
    let b = filed_or_created(v[j]);
    let ka = sort_key(v[i], Order::NewestFiled);
    let kb = sort_key(v[j], Order::NewestFiled);
    assert(!before(Order::NewestFiled, v[j], v[i]));
    assert(!lex_lt(ka, kb));
    assert(ka == seq![a.secs as int, a.nanos as int]);
    assert(kb == seq![b.secs as int, b.nanos as int]);
    if a.secs == b.secs {
        assert(ka.drop_first() == seq![a.nanos as int]);
        assert(kb.drop_first() == seq![b.nanos as int]);
        assert(!lex_lt(ka.drop_first(), kb.drop_first()));
        assert(seq![a.nanos as int].drop_first().len() == 0);
        assert(seq![b.nanos as int].drop_first().len() == 0);
    }
}

pub open spec fn int_view(v: Seq<i64>) -> Seq<int> {
    v.map_values(|x: i64| x as int)
}

fn push_stamp_key(k: &mut Vec<i64>, s: Stamp)
    ensures
        int_view(final(k)@) == int_view(old(k)@) + stamp_key(s),
{
    k.push(s.secs);
    k.push(s.nanos as i64);
    proof {
        assert(int_view(k@) =~= int_view(old(k)@) + stamp_key(s));
    }
}

/// `sort_key` computed.
fn key_of(t: &Todo, order: Order) -> (res: Vec<i64>)
    ensures
        int_view(res@) == sort_key(*t, order),
{
    let mut k: Vec<i64> = Vec::new();
    match order {
        Order::Created => {
            push_stamp_key(&mut k, t.created);
            proof {
                assert(int_view(Seq::<i64>::empty()) =~= Seq::<int>::empty());
                assert(Seq::<int>::empty() + stamp_key(t.created) == stamp_key(t.created));
            }
        },
        Order::Due => {
            match t.due {
                Some(d) => {
                    k.push(0);
                    k.push(d.days() as i64);
                },
                None => {
                    k.push(1);
                    k.push(0);
                },
            }
            let ghost head = int_view(k@);
            push_stamp_key(&mut k, t.created);
            proof {
                match t.due {
                    Some(d) => assert(head =~= seq![0, d@]),
                    None => assert(head =~= seq![1, 0]),
                }
            }
        },
        Order::Title => {
            let low = crate::date::lowercase(t.title.as_str());
            let cs = chars_of(low.as_str());
            let mut i: usize = 0;
            while i < cs.len()
                invariant
                    i <= cs@.len(),
                    int_view(k@) == char_codes(cs@.subrange(0, i as int)),
                decreases cs@.len() - i,
            {
                let c = cs[i];
                let code: u32 = c as u32;
                let ghost before = k@;
                k.push(code as i64);
                proof {
                    let t = cs@.subrange(0, i + 1);
                    assert(t.drop_last() == cs@.subrange(0, i as int));
                    assert(t == cs@.subrange(0, i as int).push(c));
                    assert(char_codes(t) =~= char_codes(cs@.subrange(0, i as int)).push(
                        (c as u32) as int,
                    ));
                    assert(k@ == before.push(code as i64));
                    assert(int_view(k@) =~= int_view(before).push((code as i64) as int));
                    assert(int_view(k@) =~= char_codes(cs@.subrange(0, i + 1)));
                }
                i += 1;
            }
            proof {
                assert(cs@.subrange(0, cs@.len() as int) == cs@);
            }
        },
        Order::NewestFiled => {
            let f = match t.completed {
                Some(c) => c,
                None => match t.archived {
                    Some(a) => a,
                    None => t.created,
                },
            };
            push_stamp_key(&mut k, f);
            proof {
                assert(int_view(Seq::<i64>::empty()) =~= Seq::<int>::empty());
                assert(Seq::<int>::empty() + stamp_key(f) == stamp_key(f));
            }
        },
    }
    k
}

/// `lex_lt` computed.
fn lex_less(a: &Vec<i64>, b: &Vec<i64>) -> (res: bool)
    ensures
        res == lex_lt(int_view(a@), int_view(b@)),
{
    let mut i: usize = 0;
    proof {
        assert(int_view(a@).subrange(0, a@.len() as int) == int_view(a@));
        assert(int_view(b@).subrange(0, b@.len() as int) == int_view(b@));
    }
    while i < a.len() && i < b.len() && a[i] == b[i]
        invariant
            i <= a@.len(),
            i <= b@.len(),
            lex_lt(int_view(a@), int_view(b@)) == lex_lt(
                int_view(a@).subrange(i as int, a@.len() as int),
                int_view(b@).subrange(i as int, b@.len() as int),
            ),
        decreases a@.len() - i,
    {
        proof {
            let sa = int_view(a@).subrange(i as int, a@.len() as int);
            let sb = int_view(b@).subrange(i as int, b@.len() as int);
            assert(sa.drop_first() == int_view(a@).subrange(i + 1, a@.len() as int));
            assert(sb.drop_first() == int_view(b@).subrange(i + 1, b@.len() as int));
        }
        i += 1;
    }
    proof {
        assert(int_view(a@).subrange(0, a@.len() as int) == int_view(a@));
        assert(int_view(b@).subrange(0, b@.len() as int) == int_view(b@));
    }
    if i >= b.len() {
        false
    } else if i >= a.len() {
        true
    } else {
        a[i] < b[i]
    }
}

fn key_before_exec(order: Order, a: &Vec<i64>, b: &Vec<i64>) -> (res: bool)
    ensures
        res == key_before(order, int_view(a@), int_view(b@)),
{
    if order == Order::NewestFiled {
        lex_less(b, a)
    } else {
        lex_less(a, b)
    }
}

pub open spec fn keys_match(keys: Seq<Vec<i64>>, v: Seq<Todo>, order: Order) -> bool {
    &&& keys.len() == v.len()
    &&& forall|k: int| 0 <= k < v.len() ==> int_view(#[trigger] keys[k]@) == sort_key(v[k], order)
}

/// Puts `v` in `order`, keeping what it holds. Items that compare equal keep
/// their relative order.
pub fn sort_todos(v: &mut Vec<Todo>, order: Order)
    ensures
        final(v)@ == insertion_sorted(old(v)@, order),
        final(v)@.to_multiset() == old(v)@.to_multiset(),
        final(v)@.len() == old(v)@.len(),
        sorted(final(v)@, order),
{
    broadcast use vstd::seq_lib::group_to_multiset_ensures;
    broadcast use vstd::multiset::group_multiset_axioms;

    let mut keys: Vec<Vec<i64>> = Vec::new();
    let mut k: usize = 0;
    while k < v.len()
        invariant
            k <= v@.len(),
            v@ == old(v)@,
            keys@.len() == k,
            forall|j: int| 0 <= j < k ==> int_view(#[trigger] keys@[j]@) == sort_key(v@[j], order),
        decreases v@.len() - k,
    {
        let key = key_of(&v[k], order);
        keys.push(key);
        k += 1;
    }
    let mut i: usize = 1;
    proof {
        if v@.len() > 0 {
            let o1 = old(v)@.subrange(0, 1);
            assert(o1.drop_last() =~= Seq::<Todo>::empty());
            assert(insertion_sorted(o1.drop_last(), order) =~= Seq::<Todo>::empty());
            assert(first_after(Seq::<Todo>::empty(), o1.last(), order, 0) == 0);
            assert(Seq::<Todo>::empty().insert(0, o1.last()) =~= o1);
            assert(v@.subrange(0, 1) =~= o1);
        }
    }
    while i < v.len()
        invariant
            1 <= i || v@.len() == 0,
            i <= v@.len() || v@.len() == 0,
            v@.to_multiset() == old(v)@.to_multiset(),
            v@.len() == old(v)@.len(),
            keys_match(keys@, v@, order),
            sorted(v@.subrange(0, i as int), order) || v@.len() == 0,
            v@.len() == 0 || v@.subrange(0, i as int) == insertion_sorted(
                old(v)@.subrange(0, i as int),
                order,
            ),
            v@.len() == 0 || v@.subrange(i as int, v@.len() as int) == old(v)@.subrange(
                i as int,
                old(v)@.len() as int,
            ),
        decreases v@.len() - i,
    {
        let mut p: usize = 0;
        while p < i && !key_before_exec(order, &keys[i], &keys[p])
            invariant
                p <= i < v@.len(),
                keys_match(keys@, v@, order),
                forall|q: int| 0 <= q < p ==> !before(order, v@[i as int], #[trigger] v@[q]),
            decreases i - p,
        {
            p += 1;
        }
        let ghost vi = v@;
        proof {
            let r = vi.subrange(0, i as int);
            assert forall|k: int| 0 <= k < p implies !before(order, vi[i as int], #[trigger] r[k]) by {
                assert(r[k] == vi[k]);
            }
            if p < i {
                assert(r[p as int] == vi[p as int]);
            }
            lemma_first_after(r, vi[i as int], order, p as int, 0);
            let o = old(v)@;
            let oi = o.subrange(0, i + 1);
            assert(oi.drop_last() == o.subrange(0, i as int));
            assert(vi.subrange(i as int, vi.len() as int)[0] == vi[i as int]);
            assert(o.subrange(i as int, o.len() as int)[0] == o[i as int]);
            assert(oi.last() == vi[i as int]);
            assert(vi.subrange(i + 1, vi.len() as int) =~= o.subrange(i + 1, o.len() as int)) by {
                assert forall|k: int| 0 <= k < vi.len() - i - 1 implies #[trigger] vi.subrange(
                    i + 1,
                    vi.len() as int,
                )[k] == o.subrange(i + 1, o.len() as int)[k] by {
                    assert(vi.subrange(i as int, vi.len() as int)[k + 1] == o.subrange(
                        i as int,
                        o.len() as int,
                    )[k + 1]);
                }
            }
        }
        if p < i {
            let ghost old_v = v@;
            let ghost old_keys = keys@;
            let key = keys.remove(i);
            keys.insert(p, key);
            let t = v.remove(i);
            v.insert(p, t);
            proof {
                lemma_insert_step(old_v, i as int, p as int, order);
                assert(v@ == old_v.remove(i as int).insert(p as int, old_v[i as int]));
                vstd::seq_lib::to_multiset_remove(old_v, i as int);
                vstd::seq_lib::to_multiset_insert(old_v.remove(i as int), p as int, old_v[i as int]);
                vstd::seq_lib::to_multiset_contains(old_v, old_v[i as int]);
                assert(v@.to_multiset() =~= old_v.to_multiset());
                assert forall|q: int| 0 <= q < v@.len() implies int_view(#[trigger] keys@[q]@)
                    == sort_key(v@[q], order) by {
                    if q < p {
                        assert(keys@[q] == old_keys[q]);
                        assert(v@[q] == old_v[q]);
                    } else if q == p {
                    } else if q <= i {
                        assert(keys@[q] == old_keys[q - 1]);
                        assert(v@[q] == old_v[q - 1]);
                    } else {
                        assert(keys@[q] == old_keys[q]);
                        assert(v@[q] == old_v[q]);
                    }
                }
            }
            proof {
                let r = vi.subrange(0, i as int);
                assert(v@.subrange(0, i + 1) =~= r.insert(p as int, vi[i as int]));
                assert(v@.subrange(i + 1, v@.len() as int) =~= vi.subrange(i + 1, vi.len() as int));
            }
        } else {
            proof {
                lemma_append_step(v@, i as int, order);
                let r = vi.subrange(0, i as int);
                assert(v@.subrange(0, i + 1) =~= r.insert(i as int, vi[i as int]));
            }
        }
        i += 1;
    }
    proof {
        if v@.len() > 0 {
            assert(v@.subrange(0, v@.len() as int) == v@);
            assert(old(v)@.subrange(0, old(v)@.len() as int) == old(v)@);
        } else {
            assert(old(v)@ =~= Seq::<Todo>::empty());
        }
    }
}

proof fn lemma_append_step(v: Seq<Todo>, i: int, order: Order)
    requires
        0 <= i < v.len(),
        sorted(v.subrange(0, i), order),
        forall|q: int| 0 <= q < i ==> !before(order, v[i], #[trigger] v[q]),
    ensures
        sorted(v.subrange(0, i + 1), order),
{
    let w = v.subrange(0, i + 1);
    assert forall|a: int, b: int| 0 <= a < b < w.len() implies !before(
        order,
        #[trigger] w[b],
        #[trigger] w[a],
    ) by {
        if b < i {
            assert(v.subrange(0, i)[a] == w[a]);
            assert(v.subrange(0, i)[b] == w[b]);
        } else {
            assert(w[b] == v[i]);
            assert(w[a] == v[a]);
        }
    }
}

proof fn lemma_insert_step(v: Seq<Todo>, i: int, p: int, order: Order)
    requires
        0 <= p < i < v.len(),
        sorted(v.subrange(0, i), order),
        forall|q: int| 0 <= q < p ==> !before(order, v[i], #[trigger] v[q]),
        before(order, v[i], v[p]),
    ensures
        sorted(v.remove(i).insert(p, v[i]).subrange(0, i + 1), order),
{
    let x = v[i];
    let w = v.remove(i).insert(p, x);
    let u = w.subrange(0, i + 1);
    let pre = v.subrange(0, i);
    assert forall|a: int| 0 <= a < u.len() implies #[trigger] u[a] == (if a < p {
        v[a]
    } else if a == p {
        x
    } else {
        v[a - 1]
    }) by {}
    // Everything from p up to i comes after x.
    assert forall|q: int| p <= q < i implies before(order, x, #[trigger] v[q]) by {
        if q > p {
            assert(pre[p] == v[p]);
            assert(pre[q] == v[q]);
            assert(!before(order, pre[q], pre[p]));
            lemma_before_facts(
                order,
                sort_key(x, order),
                sort_key(v[p], order),
                sort_key(v[q], order),
            );
        }
    }
    assert forall|a: int, b: int| 0 <= a < b < u.len() implies !before(
        order,
        #[trigger] u[b],
        #[trigger] u[a],
    ) by {
        if a == p {
            assert(u[a] == x);
            assert(u[b] == v[b - 1]);
            assert(before(order, x, v[b - 1]));
            lemma_before_facts(order, sort_key(x, order), sort_key(v[b - 1], order), sort_key(x, order));
        } else if b == p {
            assert(u[b] == x);
            assert(u[a] == v[a]);
        } else {
            let a0 = if a < p {
                a
            } else {
                a - 1
            };
            let b0 = if b < p {
                b
            } else {
                b - 1
            };
            assert(u[a] == v[a0]);
            assert(u[b] == v[b0]);
            assert(pre[a0] == v[a0]);
            assert(pre[b0] == v[b0]);
        }
    }
}

/// `t` as filing it away at `now` leaves it: stamped with the moment it was
/// ticked off if it was, else with `now`, and collapsed.
pub open spec fn filed(t: Todo, now: Stamp) -> Todo {
    Todo {
        archived: Some(
            match t.completed {
                Some(c) => c,
                None => now,
            },
        ),
        expanded: false,
        ..t
    }
}

/// `t` as restoring it leaves it: back on the list, unticked, with neither
/// completion nor filing, collapsed.
pub open spec fn revived(t: Todo) -> Todo {
    Todo { archived: None, completed: None, done: false, expanded: false, ..t }
}

/// The todos of `s` that are not ticked, in order.
pub open spec fn unticked(s: Seq<Todo>) -> Seq<Todo>
    decreases s.len(),
{
    if s.len() == 0 {
        Seq::empty()
    } else {
        (if s[0].done {
            Seq::empty()
        } else {
            seq![s[0]]
        }) + unticked(s.drop_first())
    }
}

/// The ticked todos of `s`, filed at `now`, in order.
pub open spec fn swept(s: Seq<Todo>, now: Stamp) -> Seq<Todo>
    decreases s.len(),
{
    if s.len() == 0 {
        Seq::empty()
    } else {
        (if s[0].done {
            seq![filed(s[0], now)]
        } else {
            Seq::empty()
        }) + swept(s.drop_first(), now)
    }
}

/// The history once the ticked todos of `s` are swept into `h` at `now`:
/// from the last todo of `s` to the first, each ticked one is filed and the
/// history put back in order.
pub open spec fn swept_history(h: Seq<Todo>, s: Seq<Todo>, now: Stamp) -> Seq<Todo>
    decreases s.len(),
{
    if s.len() == 0 {
        h
    } else {
        let h1 = swept_history(h, s.drop_first(), now);
        if s[0].done {
            insertion_sorted(h1.push(filed(s[0], now)), Order::NewestFiled)
        } else {
            h1
        }
    }
}

/// Everything in the list and the history, as the list and history of a
/// store hold it.
pub struct Store {
    /// The live list.
    pub todos: Vec<Todo>,
    /// Everything filed away, most recent first.
    pub history: Vec<Todo>,
    /// Where the store is kept.
    pub path: String,
    /// The last handle given out.
    pub next_id: u64,
}

/// Whether no todo in `s` has handle `id`.
pub open spec fn id_unused(s: Seq<Todo>, id: u64) -> bool {
    forall|k: int| 0 <= k < s.len() ==> (#[trigger] s[k]).id != id
}

impl Store {
    /// The last handle given out.
    pub open spec fn last_id(&self) -> u64 {
        self.next_id
    }

    /// Where the store is kept.
    pub open spec fn spec_path(&self) -> Seq<char> {
        self.path@
    }

    /// Every handle in the list and history is at most the last one given
    /// out.
    pub open spec fn ids_below(&self) -> bool {
        &&& forall|k: int| 0 <= k < self.todos@.len() ==> (#[trigger] self.todos@[k]).id
            <= self.last_id()
        &&& forall|k: int| 0 <= k < self.history@.len() ==> (#[trigger] self.history@[k]).id
            <= self.last_id()
    }

    /// An empty store kept at `path`.
    pub fn new(path: &str) -> (res: Store)
        ensures
            res.todos@ == Seq::<Todo>::empty(),
            res.history@ == Seq::<Todo>::empty(),
            res.spec_path() == path@,
            res.last_id() == 0,
    {
        Store { todos: Vec::new(), history: Vec::new(), path: path.to_owned(), next_id: 0 }
    }

    /// Where the store is kept.
    pub fn path(&self) -> (res: &str)
        ensures
            res@ == self.spec_path(),
    {
        self.path.as_str()
    }

    /// The last handle given out.
    pub fn last_handle(&self) -> (res: u64)
        ensures
            res == self.last_id(),
    {
        self.next_id
    }

    /// A handle no todo has had yet: one more than the last.
    pub fn next_id(&mut self) -> (res: u64)
        requires
            old(self).last_id() < u64::MAX,
        ensures
            res == old(self).last_id() + 1,
            final(self).last_id() == res,
            final(self).todos@ == old(self).todos@,
            final(self).history@ == old(self).history@,
            final(self).spec_path() == old(self).spec_path(),
            old(self).ids_below() ==> id_unused(final(self).todos@, res) && id_unused(
                final(self).history@,
                res,
            ),
    {
        self.next_id = self.next_id + 1;
        self.next_id
    }

    /// Position of the todo with handle `id` in the list.
    pub fn index_of(&self, id: u64) -> (res: Option<usize>)
        ensures
            res matches Some(i) ==> i < self.todos@.len() && self.todos@[i as int].id == id
                && id_unused(self.todos@.subrange(0, i as int), id),
            res is None ==> id_unused(self.todos@, id),
    {
        position_of(&self.todos, id)
    }

    /// Position of the todo with handle `id` in the history.
    pub fn history_index_of(&self, id: u64) -> (res: Option<usize>)
        ensures
            res matches Some(i) ==> i < self.history@.len() && self.history@[i as int].id == id
                && id_unused(self.history@.subrange(0, i as int), id),
            res is None ==> id_unused(self.history@, id),
    {
        position_of(&self.history, id)
    }

    /// Puts the list in the order `sort` asks for.
    pub fn sort(&mut self, sort: Sort)
        ensures
            final(self).todos@ == insertion_sorted(old(self).todos@, order_of(sort)),
            final(self).todos@.to_multiset() == old(self).todos@.to_multiset(),
            final(self).todos@.len() == old(self).todos@.len(),
            sorted(final(self).todos@, order_of(sort)),
            final(self).history@ == old(self).history@,
            final(self).last_id() == old(self).last_id(),
            final(self).spec_path() == old(self).spec_path(),
    {
        let order = match sort {
            Sort::Created => Order::Created,
            Sort::Due => Order::Due,
            Sort::Alpha => Order::Title,
        };
        sort_todos(&mut self.todos, order);
    }

    /// History reads newest first, regardless of the list's sort setting.
    fn sort_history(&mut self)
        ensures
            final(self).history@ == insertion_sorted(old(self).history@, Order::NewestFiled),
            final(self).history@.to_multiset() == old(self).history@.to_multiset(),
            final(self).history@.len() == old(self).history@.len(),
            sorted(final(self).history@, Order::NewestFiled),
            final(self).todos@ == old(self).todos@,
            final(self).last_id() == old(self).last_id(),
            final(self).spec_path() == old(self).spec_path(),
    {
        sort_todos(&mut self.history, Order::NewestFiled);
    }

    /// Puts a todo back into history in its rightful place.
    pub fn push_history(&mut self, t: Todo)
        ensures
            final(self).history@ == insertion_sorted(old(self).history@.push(t), Order::NewestFiled),
            final(self).history@.to_multiset() == old(self).history@.to_multiset().insert(t),
            final(self).history@.len() == old(self).history@.len() + 1,
            sorted(final(self).history@, Order::NewestFiled),
            final(self).todos@ == old(self).todos@,
            final(self).last_id() == old(self).last_id(),
            final(self).spec_path() == old(self).spec_path(),
    {
        broadcast use vstd::seq_lib::group_to_multiset_ensures;

        self.history.push(t);
        self.sort_history();
    }

    /// Files the todo at `index` away at `now`, keeping the moment it was
    /// actually finished rather than the moment it happened to be filed.
    /// Returns its handle, or `None` when there is no todo at `index`.
    pub fn archive_at(&mut self, index: usize, now: Stamp) -> (res: Option<u64>)
        ensures
            index >= old(self).todos@.len() ==> res is None && *final(self) == *old(self),
            index < old(self).todos@.len() ==> {
                &&& res == Some(old(self).todos@[index as int].id)
                &&& final(self).todos@ == old(self).todos@.remove(index as int)
                &&& final(self).history@ == insertion_sorted(
                    old(self).history@.push(filed(old(self).todos@[index as int], now)),
                    Order::NewestFiled,
                )
                &&& final(self).history@.to_multiset() == old(self).history@.to_multiset().insert(
                    filed(old(self).todos@[index as int], now),
                )
                &&& final(self).history@.len() == old(self).history@.len() + 1
                &&& sorted(final(self).history@, Order::NewestFiled)
            },
            final(self).last_id() == old(self).last_id(),
            final(self).spec_path() == old(self).spec_path(),
    {
        if index >= self.todos.len() {
            return None;
        }
        let mut t = self.todos.remove(index);
        let stamp = match t.completed {
            Some(c) => c,
            None => now,
        };
        t.archived = Some(stamp);
        t.expanded = false;
        let id = t.id;
        proof {
            assert(t == filed(old(self).todos@[index as int], now));
        }
        self.push_history(t);
        Some(id)
    }

    /// Files the todo at `index` away now; see `archive_at`.
    pub fn archive(&mut self, index: usize) -> (res: Option<u64>)
        ensures
            index >= old(self).todos@.len() ==> res is None && *final(self) == *old(self),
            index < old(self).todos@.len() ==> exists|now: Stamp|
                {
                    &&& res == Some(old(self).todos@[index as int].id)
                    &&& final(self).todos@ == old(self).todos@.remove(index as int)
                    &&& final(self).history@ == insertion_sorted(
                        old(self).history@.push(filed(old(self).todos@[index as int], now)),
                        Order::NewestFiled,
                    )
                    &&& final(self).history@.to_multiset()
                        == old(self).history@.to_multiset().insert(
                        filed(old(self).todos@[index as int], now),
                    )
                    &&& sorted(final(self).history@, Order::NewestFiled)
                },
    {
        let now = Stamp::now();
        self.archive_at(index, now)
    }

    /// Brings the todo at `index` of the history back to the list, unticked:
    /// restoring means picking the work up again, and it also stops the next
    /// sweep from filing it straight back. The list is then put in the order
    /// `sort` asks for. Returns its handle, or `None` when there is no todo at
    /// `index`.
    pub fn restore(&mut self, index: usize, sort: Sort) -> (res: Option<u64>)
        ensures
            index >= old(self).history@.len() ==> res is None && *final(self) == *old(self),
            index < old(self).history@.len() ==> {
                &&& res == Some(old(self).history@[index as int].id)
                &&& final(self).history@ == old(self).history@.remove(index as int)
                &&& final(self).todos@ == insertion_sorted(
                    old(self).todos@.push(revived(old(self).history@[index as int])),
                    order_of(sort),
                )
                &&& final(self).todos@.to_multiset() == old(self).todos@.to_multiset().insert(
                    revived(old(self).history@[index as int]),
                )
                &&& final(self).todos@.len() == old(self).todos@.len() + 1
                &&& sorted(final(self).todos@, order_of(sort))
            },
            final(self).last_id() == old(self).last_id(),
            final(self).spec_path() == old(self).spec_path(),
    {
        broadcast use vstd::seq_lib::group_to_multiset_ensures;

        if index >= self.history.len() {
            return None;
        }
        let mut t = self.history.remove(index);
        t.archived = None;
        t.completed = None;
        t.done = false;
        t.expanded = false;
        let id = t.id;
        proof {
            assert(t == revived(old(self).history@[index as int]));
        }
        self.todos.push(t);
        self.sort(sort);
        Some(id)
    }

    /// Sweeps every ticked todo into history, filed at `now`. Returns how
    /// many moved. The list keeps the unticked todos in their order.
    pub fn sweep_at(&mut self, now: Stamp) -> (res: usize)
        ensures
            final(self).todos@ == unticked(old(self).todos@),
            final(self).history@ == swept_history(old(self).history@, old(self).todos@, now),
            res == swept(old(self).todos@, now).len(),
            final(self).history@.to_multiset() == old(self).history@.to_multiset().add(
                swept(old(self).todos@, now).to_multiset(),
            ),
            res == 0 ==> final(self).history@ == old(self).history@,
            res > 0 ==> sorted(final(self).history@, Order::NewestFiled),
            final(self).last_id() == old(self).last_id(),
            final(self).spec_path() == old(self).spec_path(),
    {
        broadcast use vstd::seq_lib::group_to_multiset_ensures;
        broadcast use vstd::multiset::group_multiset_axioms;

        let ghost o = old(self).todos@;
        let mut n: usize = 0;
        let mut i: usize = self.todos.len();
        proof {
            assert(o.subrange(i as int, o.len() as int) == Seq::<Todo>::empty());
            assert(o.subrange(0, i as int) == o);
            assert(self.todos@ == o.subrange(0, i as int) + unticked(Seq::<Todo>::empty()));
            lemma_empty_to_multiset();
            assert(self.history@.to_multiset() =~= old(self).history@.to_multiset().add(
                swept(Seq::<Todo>::empty(), now).to_multiset(),
            ));
        }
        while i > 0
            invariant
                i <= o.len(),
                o.len() <= usize::MAX,
                self.todos@ == o.subrange(0, i as int) + unticked(
                    o.subrange(i as int, o.len() as int),
                ),
                n == swept(o.subrange(i as int, o.len() as int), now).len(),
                n <= o.len() - i,
                self.history@.to_multiset() == old(self).history@.to_multiset().add(
                    swept(o.subrange(i as int, o.len() as int), now).to_multiset(),
                ),
                n == 0 ==> self.history@ == old(self).history@,
                n > 0 ==> sorted(self.history@, Order::NewestFiled),
                self.history@ == swept_history(
                    old(self).history@,
                    o.subrange(i as int, o.len() as int),
                    now,
                ),
                self.last_id() == old(self).last_id(),
                self.spec_path() == old(self).spec_path(),
            decreases i,
        {
            i -= 1;
            let ghost rest = o.subrange(i + 1, o.len() as int);
            let ghost here = o.subrange(i as int, o.len() as int);
            proof {
                assert(here.drop_first() == rest);
                assert(here[0] == o[i as int]);
                assert(self.todos@[i as int] == o[i as int]);
            }
            if self.todos[i].done {
                let _ = self.archive_at(i, now);
                proof {
                    assert(self.todos@ =~= o.subrange(0, i as int) + unticked(here));
                    assert(swept(here, now) == seq![filed(o[i as int], now)] + swept(rest, now));
                    vstd::seq_lib::lemma_multiset_commutative(
                        seq![filed(o[i as int], now)],
                        swept(rest, now),
                    );
                    let x = filed(o[i as int], now);
                    vstd::seq_lib::to_multiset_build(Seq::<Todo>::empty(), x);
                    assert(Seq::<Todo>::empty().push(x) == seq![x]);
                    lemma_empty_to_multiset();
                    assert(seq![x].to_multiset() =~= Multiset::<Todo>::empty().insert(x));
                }
                n += 1;
                proof {
                    assert(self.history@.to_multiset() =~= old(self).history@.to_multiset().add(
                        swept(here, now).to_multiset(),
                    ));
                }
            } else {
                proof {
                    assert(unticked(here) == seq![o[i as int]] + unticked(rest));
                    assert(self.todos@ =~= o.subrange(0, i as int) + unticked(here));
                    assert(swept(here, now) == Seq::<Todo>::empty() + swept(rest, now));
                    assert(Seq::<Todo>::empty() + swept(rest, now) == swept(rest, now));
                }
            }
        }
        proof {
            assert(o.subrange(0, 0) + unticked(o) == unticked(o));
            assert(o.subrange(0, o.len() as int) == o);
        }
        n
    }

    /// Sweeps every ticked todo into history now; see `sweep_at`.
    pub fn sweep(&mut self) -> (res: usize)
        ensures
            final(self).todos@ == unticked(old(self).todos@),
            exists|now: Stamp|
                {
                    &&& final(self).history@ == swept_history(old(self).history@, old(self).todos@, now)
                    &&& res == swept(old(self).todos@, now).len()
                    &&& final(self).history@.to_multiset() == old(self).history@.to_multiset().add(
                        swept(old(self).todos@, now).to_multiset(),
                    )
                },
            res == 0 ==> final(self).history@ == old(self).history@,
            res > 0 ==> sorted(final(self).history@, Order::NewestFiled),
    {
        let now = Stamp::now();
        self.sweep_at(now)
    }
}

proof fn lemma_empty_to_multiset()
    ensures
        Seq::<Todo>::empty().to_multiset() == Multiset::<Todo>::empty(),
{
    Seq::<Todo>::empty().to_multiset_ensures();
    vstd::multiset::lemma_multiset_empty_len(Seq::<Todo>::empty().to_multiset());
}

/// Position of the first todo in `v` with handle `id`.
fn position_of(v: &Vec<Todo>, id: u64) -> (res: Option<usize>)
    ensures
        res matches Some(i) ==> i < v@.len() && v@[i as int].id == id && id_unused(
            v@.subrange(0, i as int),
            id,
        ),
        res is None ==> id_unused(v@, id),
{
    let mut i: usize = 0;
    while i < v.len()
        invariant
            i <= v@.len(),
            id_unused(v@.subrange(0, i as int), id),
        decreases v@.len() - i,
    {
        if v[i].id == id {
            return Some(i);
        }
        proof {
            assert forall|k: int| 0 <= k < i + 1 implies (#[trigger] v@.subrange(0, i + 1)[k]).id
                != id by {
                if k < i {
                    assert(v@.subrange(0, i + 1)[k] == v@.subrange(0, i as int)[k]);
                }
            }
        }
        i += 1;
    }
    proof {
        assert(v@.subrange(0, v@.len() as int) == v@);
    }
    None
}

/// The todos that the lines `ls` record, in order: blank lines and lines
/// that record no todo are skipped.
pub open spec fn records(ls: Seq<Seq<char>>) -> Seq<Record>
    decreases ls.len(),
{
    if ls.len() == 0 {
        Seq::empty()
    } else {
        let r = records(ls.drop_last());
        let l = ls.last();
        if trim(l).len() == 0 || decode_spec(l) is None {
            r
        } else {
            r.push(decode_spec(l)->0)
        }
    }
}

/// The records in `rs` that were never filed away, in order.
pub open spec fn live(rs: Seq<Record>) -> Seq<Record>
    decreases rs.len(),
{
    if rs.len() == 0 {
        Seq::empty()
    } else if rs.last().archived is None {
        live(rs.drop_last()).push(rs.last())
    } else {
        live(rs.drop_last())
    }
}

/// The records in `rs` that were filed away, in order.
pub open spec fn filed_away(rs: Seq<Record>) -> Seq<Record>
    decreases rs.len(),
{
    if rs.len() == 0 {
        Seq::empty()
    } else if rs.last().archived is Some {
        filed_away(rs.drop_last()).push(rs.last())
    } else {
        filed_away(rs.drop_last())
    }
}

/// The positions in `rs` of the records never filed away, in order.
pub open spec fn live_positions(rs: Seq<Record>) -> Seq<int>
    decreases rs.len(),
{
    if rs.len() == 0 {
        Seq::empty()
    } else if rs.last().archived is None {
        live_positions(rs.drop_last()).push(rs.len() - 1)
    } else {
        live_positions(rs.drop_last())
    }
}

/// The positions in `rs` of the records filed away, in order.
pub open spec fn filed_positions(rs: Seq<Record>) -> Seq<int>
    decreases rs.len(),
{
    if rs.len() == 0 {
        Seq::empty()
    } else if rs.last().archived is Some {
        filed_positions(rs.drop_last()).push(rs.len() - 1)
    } else {
        filed_positions(rs.drop_last())
    }
}

/// The handles of `ts`, in order.
pub open spec fn ids_of(ts: Seq<Todo>) -> Seq<int> {
    ts.map_values(|t: Todo| t.id as int)
}

pub open spec fn records_of(ts: Seq<Todo>) -> Seq<Record> {
    ts.map_values(|t: Todo| record_of(t))
}

proof fn lemma_live_concat(a: Seq<Record>, b: Seq<Record>)
    ensures
        live(a + b) == live(a) + live(b),
        filed_away(a + b) == filed_away(a) + filed_away(b),
    decreases b.len(),
{
    if b.len() == 0 {
        assert(a + b == a);
        assert(live(a) + live(b) == live(a));
        assert(filed_away(a) + filed_away(b) == filed_away(a));
    } else {
        let b0 = b.drop_last();
        lemma_live_concat(a, b0);
        assert((a + b).drop_last() == a + b0);
        assert((a + b).last() == b.last());
    }
}

proof fn lemma_all_live(ts: Seq<Todo>)
    requires
        forall|k: int| 0 <= k < ts.len() ==> (#[trigger] ts[k]).archived is None,
    ensures
        live(records_of(ts)) == records_of(ts),
        filed_away(records_of(ts)) == Seq::<Record>::empty(),
    decreases ts.len(),
{
    if ts.len() > 0 {
        let t0 = ts.drop_last();
        assert forall|k: int| 0 <= k < t0.len() implies (#[trigger] t0[k]).archived is None by {
            assert(t0[k] == ts[k]);
        }
        lemma_all_live(t0);
        assert(records_of(ts).drop_last() == records_of(t0));
        assert(ts[ts.len() - 1].archived is None);
        assert(records_of(t0).push(records_of(ts).last()) == records_of(ts));
    }
}

proof fn lemma_all_filed(ts: Seq<Todo>)
    requires
        forall|k: int| 0 <= k < ts.len() ==> (#[trigger] ts[k]).archived is Some,
    ensures
        live(records_of(ts)) == Seq::<Record>::empty(),
        filed_away(records_of(ts)) == records_of(ts),
    decreases ts.len(),
{
    if ts.len() > 0 {
        let t0 = ts.drop_last();
        assert forall|k: int| 0 <= k < t0.len() implies (#[trigger] t0[k]).archived is Some by {
            assert(t0[k] == ts[k]);
        }
        lemma_all_filed(t0);
        assert(records_of(ts).drop_last() == records_of(t0));
        assert(ts[ts.len() - 1].archived is Some);
        assert(records_of(t0).push(records_of(ts).last()) == records_of(ts));
    }
}

/// A store written to its file reads back as the same list and history: of
/// the records of the list followed by the history, those never filed away
/// are the list's and the others the history's, in order, as long as
/// nothing in the list was filed away and everything in the history was.
pub proof fn law_store_round_trip(todos: Seq<Todo>, history: Seq<Todo>)
    requires
        forall|k: int| 0 <= k < todos.len() ==> (#[trigger] todos[k]).archived is None,
        forall|k: int| 0 <= k < history.len() ==> (#[trigger] history[k]).archived is Some,
    ensures
        live(records_of(todos + history)) == records_of(todos),
        filed_away(records_of(todos + history)) == records_of(history),
{
    assert(records_of(todos + history) == records_of(todos) + records_of(history));
    lemma_live_concat(records_of(todos), records_of(history));
    lemma_all_live(todos);
    lemma_all_filed(history);
    assert(records_of(todos) + Seq::<Record>::empty() == records_of(todos));
    assert(Seq::<Record>::empty() + records_of(history) == records_of(history));
}

/// The file's text for the todos `ts`: each one's line, ended by a newline.
pub open spec fn render_spec(ts: Seq<Todo>) -> Seq<char>
    decreases ts.len(),
{
    if ts.len() == 0 {
        Seq::empty()
    } else {
        render_spec(ts.drop_last()) + encode_spec(ts.last()) + seq!['\n']
    }
}

impl Store {
    /// The store that `text`, the content of its file, holds, kept at
    /// `path`: each line that records a todo becomes one, with handles
    /// counted from 0 in file order; todos that were filed away go to the
    /// history, newest first, the others to the list in file order. A
    /// malformed line is skipped rather than fatal: one bad row never costs
    /// the rest of the list.
    pub fn from_text(text: &str, path: &str) -> (res: Store)
        ensures
            records_of(res.todos@) == live(records(text_lines(text@))),
            ids_of(res.todos@) == live_positions(records(text_lines(text@))),
            forall|i: int, j: int|
                0 <= i < j < res.todos@.len() ==> (#[trigger] res.todos@[i]).id
                    < (#[trigger] res.todos@[j]).id,
            exists|h: Seq<Todo>|
                #![trigger h.to_multiset()]
                {
                    &&& h.to_multiset() == res.history@.to_multiset()
                    &&& res.history@ == insertion_sorted(h, Order::NewestFiled)
                    &&& records_of(h) == filed_away(records(text_lines(text@)))
                    &&& ids_of(h) == filed_positions(records(text_lines(text@)))
                    &&& forall|i: int, j: int|
                        0 <= i < j < h.len() ==> (#[trigger] h[i]).id < (#[trigger] h[j]).id
                    &&& forall|i: int, j: int|
                        0 <= i < res.todos@.len() && 0 <= j < h.len() ==> (#[trigger] res.todos@[i]).id
                            != (#[trigger] h[j]).id
                },
            sorted(res.history@, Order::NewestFiled),
            res.last_id() == records(text_lines(text@)).len(),
            forall|k: int| 0 <= k < res.todos@.len() ==> (#[trigger] res.todos@[k]).id < res.last_id()
                && !res.todos@[k].expanded,
            forall|k: int| 0 <= k < res.history@.len() ==> (#[trigger] res.history@[k]).id
                < res.last_id() && !res.history@[k].expanded,
            res.spec_path() == path@,
    {
        let cs = chars_of(text);
        let lines = text_lines_exec(cs.as_slice());
        let ghost ls = text_lines(text@);
        let mut store = Store::new(path);
        let mut i: usize = 0;
        proof {
            assert(ls.subrange(0, 0) =~= Seq::<Seq<char>>::empty());
            assert(records_of(store.todos@) =~= Seq::<Record>::empty());
            assert(records_of(store.history@) =~= Seq::<Record>::empty());
        }
        while i < lines.len()
            invariant
                lines_view(lines@) == ls,
                i <= ls.len(),
                records_of(store.todos@) == live(records(ls.subrange(0, i as int))),
                records_of(store.history@) == filed_away(records(ls.subrange(0, i as int))),
                ids_of(store.todos@) == live_positions(records(ls.subrange(0, i as int))),
                ids_of(store.history@) == filed_positions(records(ls.subrange(0, i as int))),
                store.next_id == records(ls.subrange(0, i as int)).len(),
                store.next_id <= i,
                forall|k: int|
                    0 <= k < store.todos@.len() ==> (#[trigger] store.todos@[k]).id < store.next_id
                        && !store.todos@[k].expanded,
                forall|k: int|
                    0 <= k < store.history@.len() ==> (#[trigger] store.history@[k]).id
                        < store.next_id && !store.history@[k].expanded,
                forall|a: int, b: int|
                    0 <= a < b < store.todos@.len() ==> (#[trigger] store.todos@[a]).id
                        < (#[trigger] store.todos@[b]).id,
                forall|a: int, b: int|
                    0 <= a < b < store.history@.len() ==> (#[trigger] store.history@[a]).id
                        < (#[trigger] store.history@[b]).id,
                forall|a: int, b: int|
                    0 <= a < store.todos@.len() && 0 <= b < store.history@.len() ==> (
                    #[trigger] store.todos@[a]).id != (#[trigger] store.history@[b]).id,
                store.path@ == path@,
            decreases ls.len() - i,
        {
            let ghost pre = ls.subrange(0, i as int);
            let ghost t = ls.subrange(0, i + 1);
            proof {
                assert(lines@[i as int]@ == ls[i as int]);
                assert(t.drop_last() == pre);
                assert(t.last() == ls[i as int]);
            }
            let line = string_of(lines[i].as_slice());
            let trimmed = trim_chars(lines[i].as_slice());
            if trimmed.len() > 0 {
                match Todo::decode(line.as_str(), store.next_id) {
                    Some(todo) => {
                        let ghost r = record_of(todo);
                        let ghost old_history = store.history@;
                        let ghost old_todos = store.todos@;
                        proof {
                            assert(records(t) == records(pre).push(r));
                            assert(records(t).drop_last() == records(pre));
                        }
                        if todo.archived.is_some() {
                            store.history.push(todo);
                            proof {
                                assert(ids_of(store.history@) =~= ids_of(old_history).push(
                                    todo.id as int,
                                ));
                                assert(records_of(store.history@) =~= records_of(
                                    store.history@.drop_last(),
                                ).push(r));
                                assert(store.history@.drop_last() =~= old_history);
                            }
                        } else {
                            store.todos.push(todo);
                            proof {
                                assert(ids_of(store.todos@) =~= ids_of(old_todos).push(
                                    todo.id as int,
                                ));
                                assert(records_of(store.todos@) =~= records_of(
                                    store.todos@.drop_last(),
                                ).push(r));
                                assert(store.todos@.drop_last() =~= old_todos);
                            }
                        }
                        store.next_id = store.next_id + 1;
                    },
                    None => {
                        proof {
                            assert(records(t) == records(pre));
                        }
                    },
                }
            } else {
                proof {
                    assert(records(t) == records(pre));
                }
            }
            i += 1;
        }
        proof {
            assert(ls.subrange(0, ls.len() as int) == ls);
        }
        let ghost h = store.history@;
        store.sort_history();
        proof {
            assert(h.to_multiset() == store.history@.to_multiset());
            assert(store.history@ == insertion_sorted(h, Order::NewestFiled));
            let hs = store.history@;
            assert forall|k: int| 0 <= k < hs.len() implies (#[trigger] hs[k]).id
                < store.next_id && !hs[k].expanded by {
                let x = hs[k];
                vstd::seq_lib::to_multiset_contains(hs, x);
                vstd::seq_lib::to_multiset_contains(h, x);
                assert(hs.contains(x));
                assert(h.to_multiset().count(x) > 0);
                let j = choose|j: int| 0 <= j < h.len() && h[j] == x;
            }
        }
        store
    }
}

pub open spec fn lines_of(ts: Seq<Todo>) -> Seq<Seq<char>> {
    ts.map_values(|t: Todo| encode_spec(t))
}

/// The lines of `ts` are good lines, and the storable ones read back as
/// they were.
pub open spec fn lines_read_back(ts: Seq<Todo>) -> bool {
    forall|k: int|
        0 <= k < ts.len() ==> good_line(encode_spec(#[trigger] ts[k])) && (storable(ts[k])
            ==> decode_spec(encode_spec(ts[k])) == Some(record_of(ts[k])))
}

/// Appends the line of each todo of `ts`, in order, to `out`, which holds
/// the lines of `done`.
fn render_into(out: &mut Vec<char>, ts: &Vec<Todo>, Ghost(done): Ghost<Seq<Todo>>)
    requires
        old(out)@ == render_spec(done),
        lines_read_back(done),
    ensures
        final(out)@ == render_spec(done + ts@),
        lines_read_back(done + ts@),
{
    let mut i: usize = 0;
    proof {
        assert(done + ts@.subrange(0, 0) == done);
    }
    while i < ts.len()
        invariant
            i <= ts@.len(),
            out@ == render_spec(done + ts@.subrange(0, i as int)),
            lines_read_back(done + ts@.subrange(0, i as int)),
        decreases ts@.len() - i,
    {
        let t = &ts[i];
        let line = t.encode();
        let mut lc = chars_of(line.as_str());
        out.append(&mut lc);
        out.push('\n');
        proof {
            let pre = done + ts@.subrange(0, i as int);
            let nxt = done + ts@.subrange(0, i + 1);
            assert(nxt.drop_last() == pre);
            assert(nxt.last() == ts@[i as int]);
            assert forall|k: int| 0 <= k < nxt.len() implies good_line(
                encode_spec(#[trigger] nxt[k]),
            ) && (storable(nxt[k]) ==> decode_spec(encode_spec(nxt[k])) == Some(
                record_of(nxt[k]),
            )) by {
                if k < pre.len() {
                    assert(nxt[k] == pre[k]);
                }
            }
        }
        i += 1;
    }
    proof {
        assert(ts@.subrange(0, ts@.len() as int) == ts@);
    }
}

proof fn lemma_split_render(ts: Seq<Todo>, e: Seq<char>)
    requires
        lines_read_back(ts),
        !has_char(e, '\n'),
    ensures
        split_lines(render_spec(ts) + e) == lines_of(ts).push(e),
    decreases ts.len(),
{
    if ts.len() == 0 {
        assert(render_spec(ts) + e == e);
        assert forall|i: int| 0 <= i < e.len() implies e[i] != '\n' by {
            if e[i] == '\n' {
                assert(has_char(e, '\n'));
            }
        }
        lemma_split_single(e);
        assert(lines_of(ts).push(e) == seq![e]);
    } else {
        let t0 = ts.drop_last();
        let last = encode_spec(ts.last());
        assert(lines_read_back(t0)) by {
            assert forall|k: int| 0 <= k < t0.len() implies good_line(encode_spec(#[trigger] t0[k]))
                && (storable(t0[k]) ==> decode_spec(encode_spec(t0[k])) == Some(
                record_of(t0[k]),
            )) by {
                assert(t0[k] == ts[k]);
            }
        }
        assert(good_line(encode_spec(ts[ts.len() - 1])));
        lemma_split_render(t0, last);
        assert(render_spec(ts) + e == (render_spec(t0) + last) + seq!['\n'] + e);
        lemma_split_concat(render_spec(t0) + last, e);
        assert forall|i: int| 0 <= i < e.len() implies e[i] != '\n' by {
            if e[i] == '\n' {
                assert(has_char(e, '\n'));
            }
        }
        lemma_split_single(e);
        assert(lines_of(t0).push(last) == lines_of(ts));
    }
}

proof fn lemma_records_of_lines(ts: Seq<Todo>)
    requires
        lines_read_back(ts),
        forall|k: int| 0 <= k < ts.len() ==> storable(#[trigger] ts[k]),
    ensures
        records(lines_of(ts)) == records_of(ts),
    decreases ts.len(),
{
    if ts.len() > 0 {
        let t0 = ts.drop_last();
        assert(lines_read_back(t0)) by {
            assert forall|k: int| 0 <= k < t0.len() implies good_line(encode_spec(#[trigger] t0[k]))
                && (storable(t0[k]) ==> decode_spec(encode_spec(t0[k])) == Some(
                record_of(t0[k]),
            )) by {
                assert(t0[k] == ts[k]);
            }
        }
        assert forall|k: int| 0 <= k < t0.len() implies storable(#[trigger] t0[k]) by {
            assert(t0[k] == ts[k]);
        }
        lemma_records_of_lines(t0);
        let l = encode_spec(ts.last());
        assert(good_line(encode_spec(ts[ts.len() - 1])));
        assert(storable(ts[ts.len() - 1]));
        assert(lines_of(ts).drop_last() == lines_of(t0));
        assert(lines_of(ts).last() == l);
        lemma_nonblank(l);
        assert(records_of(ts) == records_of(t0).push(record_of(ts.last())));
    }
}

proof fn lemma_nonblank(l: Seq<char>)
    requires
        good_line(l),
    ensures
        trim(l).len() > 0,
{
    assert(skip_ws(l, 0) == 0);
    lemma_back_ws_bounds(l, 0, l.len() as int);
    if back_ws(l, 0, l.len() as int) == 0 {
        assert(is_ws(l[0]));
    }
}

/// The lines of the text that `render_spec` writes are the todos' lines.
proof fn lemma_text_lines_render(ts: Seq<Todo>)
    requires
        lines_read_back(ts),
    ensures
        text_lines(render_spec(ts)) == lines_of(ts),
{
    let e = Seq::<char>::empty();
    assert(!has_char(e, '\n'));
    lemma_split_render(ts, e);
    assert(render_spec(ts) + e == render_spec(ts));
    let p = split_lines(render_spec(ts));
    assert(p == lines_of(ts).push(e));
    assert forall|i: int| 0 <= i < p.len() - 1 implies strip_cr(p[i]) == p[i] by {
        assert(p[i] == encode_spec(ts[i]));
        assert(good_line(encode_spec(ts[i])));
    }
    let q = Seq::new(
        p.len(),
        |i: int|
            if i < p.len() - 1 {
                strip_cr(p[i])
            } else {
                p[i]
            },
    );
    assert(q =~= p);
    assert(p.drop_last() == lines_of(ts));
}

impl Store {
    /// The file's text for this store: the list, then the history, one line
    /// each. When every todo is storable, reading the text back gives their
    /// records again, in that order.
    pub fn render(&self) -> (res: String)
        ensures
            res@ == render_spec(self.todos@ + self.history@),
            (forall|k: int|
                0 <= k < (self.todos@ + self.history@).len() ==> storable(
                    #[trigger] (self.todos@ + self.history@)[k],
                )) ==> records(text_lines(res@)) == records_of(self.todos@ + self.history@),
    {
        let ghost all = self.todos@ + self.history@;
        let mut out: Vec<char> = Vec::new();
        proof {
            assert(Seq::<Todo>::empty() + self.todos@ == self.todos@);
        }
        render_into(&mut out, &self.todos, Ghost(Seq::<Todo>::empty()));
        render_into(&mut out, &self.history, Ghost(self.todos@));
        proof {
            if forall|k: int| 0 <= k < all.len() ==> storable(#[trigger] all[k]) {
                lemma_text_lines_render(all);
                lemma_records_of_lines(all);
            }
        }
        string_of(out.as_slice())
    }
}

/// The name of the file a save writes first: the file's own name, or
/// nothing when the path has none, followed by `.tmp`.
pub fn tmp_name(file_name: Option<String>) -> (res: String)
    ensures
        res@ == match file_name {
            Some(n) => n@,
            None => Seq::<char>::empty(),
        } + ".tmp"@,
{
    let mut v = match file_name {
        Some(n) => chars_of(n.as_str()),
        None => Vec::new(),
    };
    let mut t = chars_of(".tmp");
    v.append(&mut t);
    string_of(v.as_slice())
}

/// Where a save of the file at `path` writes first, so that an interrupted
/// save never leaves a half-written file in its place: the same directory,
/// the file's name followed by `.tmp`.
pub fn tmp_path(path: &str) -> (res: String)
    ensures
        res@ == spec_with_file_name(
            path@,
            match spec_file_name(path@) {
                Some(n) => n,
                None => Seq::<char>::empty(),
            } + ".tmp"@,
        ),
{
    let name = tmp_name(file_name(path));
    with_file_name(path, name.as_str())
}

} // verus!
