//! Projects: a name and a free-form log, kept one per line in their own
//! file next to the todos, with the text escaped so that a line never
//! breaks inside a log.

use vstd::prelude::*;

use crate::model::{
    escape, escape_seq, join_tab, law_escape_has_no_separators, law_unescape_escape,
    lemma_join_step, lemma_split_join, parsed_instant, prepend_field, split_fields, splitn_tab,
    unescape, unescape_seq, instant,
};
use crate::stamp::{has_char, parse_stamp, spec_parse_rfc3339, spec_rfc3339, writable, Stamp};
use crate::text::{
    chars_of, is_ws, lemma_not_blank, lemma_text_lines_terminated, lines_view, plain_line,
    string_of, terminated, text_lines, text_lines_exec, trim,
};

verus! {

/// A project.
#[derive(Debug, Clone)]
pub struct Project {
    /// Session-local handle, used to keep the selection on the same project.
    /// Not persisted.
    pub id: u64,
    pub name: String,
    pub log: String,
    /// When the log was last written to.
    pub updated: Stamp,
}

/// What the line of a project records: its name, its log and the moment of
/// its last change, as seconds and nanoseconds.
pub struct ProjectRecord {
    pub name: Seq<char>,
    pub log: Seq<char>,
    pub updated: (int, int),
}

pub open spec fn project_record(p: Project) -> ProjectRecord {
    ProjectRecord { name: p.name@, log: p.log@, updated: instant(p.updated) }
}

/// The fields of the line of `p`: escaped name, escaped log, and the moment
/// of its last change in RFC 3339.
pub open spec fn project_fields(p: Project) -> Seq<Seq<char>> {
    seq![
        escape_seq(p.name@),
        escape_seq(p.log@),
        spec_rfc3339(p.updated.secs as int, p.updated.nanos as int, p.updated.offset as int),
    ]
}

/// The line of `p` in the file: its fields with a tab between each two.
pub open spec fn project_line(p: Project) -> Seq<char> {
    join_tab(project_fields(p))
}

/// The project that `line` records, if any: three fields, the last of which
/// reads as an RFC 3339 moment.
pub open spec fn read_project(line: Seq<char>) -> Option<ProjectRecord> {
    let f = splitn_tab(line, 3);
    if f.len() < 3 || spec_parse_rfc3339(f[2]) is None {
        None
    } else {
        Some(
            ProjectRecord {
                name: unescape_seq(f[0]),
                log: unescape_seq(f[1]),
                updated: parsed_instant(spec_parse_rfc3339(f[2]))->0,
            },
        )
    }
}

/// The projects that the lines `ls` record, in order: blank lines and lines
/// that record none are skipped.
pub open spec fn project_records(ls: Seq<Seq<char>>) -> Seq<ProjectRecord>
    decreases ls.len(),
{
    if ls.len() == 0 {
        Seq::empty()
    } else {
        let r = project_records(ls.drop_last());
        let l = ls.last();
        if trim(l).len() == 0 || read_project(l) is None {
            r
        } else {
            r.push(read_project(l)->0)
        }
    }
}

pub open spec fn records_of_projects(ps: Seq<Project>) -> Seq<ProjectRecord> {
    ps.map_values(|p: Project| project_record(p))
}

pub open spec fn project_lines(ps: Seq<Project>) -> Seq<Seq<char>> {
    ps.map_values(|p: Project| project_line(p))
}

/// The file's text for the projects `ps`: each one's line, ended by a
/// newline.
pub open spec fn projects_text(ps: Seq<Project>) -> Seq<char> {
    terminated(project_lines(ps))
}

/// A line that is kept whole in the file and reads back as the project.
pub open spec fn line_reads_back(p: Project) -> bool {
    &&& plain_line(project_line(p))
    &&& trim(project_line(p)).len() > 0
    &&& read_project(project_line(p)) == Some(project_record(p))
}

proof fn lemma_no_newline(s: Seq<char>, t: Seq<char>)
    requires
        !has_char(s, '\n'),
        !has_char(t, '\n'),
    ensures
        !has_char(s + seq!['\t'] + t, '\n'),
{
    let u = s + seq!['\t'] + t;
    if has_char(u, '\n') {
        let i = choose|i: int| 0 <= i < u.len() && u[i] == '\n';
        if i < s.len() {
            assert(u[i] == s[i]);
        } else if i > s.len() {
            assert(u[i] == t[i - s.len() - 1]);
        }
    }
}

/// The line of a project whose moment is writable reads back as it.
pub proof fn lemma_project_line(p: Project)
    requires
        writable(p.updated),
        spec_rfc3339(p.updated.secs as int, p.updated.nanos as int, p.updated.offset as int).len()
            >= 20,
        '0' <= spec_rfc3339(p.updated.secs as int, p.updated.nanos as int, p.updated.offset as int)[0]
            <= '9',
        !has_char(
            spec_rfc3339(p.updated.secs as int, p.updated.nanos as int, p.updated.offset as int),
            '\t',
        ),
        !has_char(
            spec_rfc3339(p.updated.secs as int, p.updated.nanos as int, p.updated.offset as int),
            '\n',
        ),
        !has_char(
            spec_rfc3339(p.updated.secs as int, p.updated.nanos as int, p.updated.offset as int),
            '\r',
        ),
        spec_parse_rfc3339(
            spec_rfc3339(p.updated.secs as int, p.updated.nanos as int, p.updated.offset as int),
        ) == Some((p.updated.secs as int, p.updated.nanos as int, p.updated.offset as int)),
    ensures
        line_reads_back(p),
{
    let ps = project_fields(p);
    let st = ps[2];
    law_escape_has_no_separators(p.name@);
    law_escape_has_no_separators(p.log@);
    law_unescape_escape(p.name@);
    law_unescape_escape(p.log@);
    assert(forall|i: int| 0 <= i < ps.len() - 1 ==> !has_char(#[trigger] ps[i], '\t')) by {
        assert forall|i: int| 0 <= i < ps.len() - 1 implies !has_char(#[trigger] ps[i], '\t') by {
            if i == 0 {
            } else {
            }
        }
    }
    lemma_split_join(ps);
    let l = project_line(p);
    assert(splitn_tab(l, 3) == ps);
    let tail = join_tab(ps.drop_first());
    assert(ps.drop_first().drop_first() == seq![st]);
    assert(ps.drop_first()[0] == ps[1]);
    assert(join_tab(seq![st]) == st);
    assert(tail == ps[1] + seq!['\t'] + st);
    assert(l == ps[0] + seq!['\t'] + tail);
    lemma_no_newline(ps[1], st);
    lemma_no_newline(ps[0], tail);
    assert(l.len() == ps[0].len() + 1 + ps[1].len() + 1 + st.len());
    assert(l.last() == st.last());
    assert(st.last() != '\r') by {
        if st.last() == '\r' {
            assert(st[st.len() - 1] == '\r');
            assert(has_char(st, '\r'));
        }
    }
    assert forall|i: int| 0 <= i < l.len() implies l[i] != '\n' by {
        if l[i] == '\n' {
            assert(has_char(l, '\n'));
        }
    }
    let k: int = ps[0].len() + 1int + ps[1].len() + 1int;
    assert(l[k] == st[0]);
    assert(!is_ws(l[k]));
    lemma_not_blank(l, k);
}

impl Project {
    /// A new project called `name`, with an empty log, made at `now`.
    pub fn new_at(id: u64, name: String, now: Stamp) -> (res: Project)
        ensures
            res.id == id,
            res.name@ == name@,
            res.log@ == Seq::<char>::empty(),
            res.updated == now,
    {
        Project { id, name, log: String::new(), updated: now }
    }

    /// A new project called `name`, with an empty log, made now.
    pub fn new(id: u64, name: String) -> (res: Project)
        ensures
            res.id == id,
            res.name@ == name@,
            res.log@ == Seq::<char>::empty(),
    {
        Project::new_at(id, name, Stamp::now())
    }

    /// The line for this project in the file. A project whose moment is
    /// writable reads back from it as it was.
    pub fn encode(&self) -> (res: String)
        ensures
            res@ == project_line(*self),
            writable(self.updated) ==> line_reads_back(*self),
    {
        let f0 = escape(self.name.as_str());
        let f1 = escape(self.log.as_str());
        let f2 = self.updated.rfc3339();
        let ghost ps = project_fields(*self);
        let mut out = chars_of(f2.as_str());
        proof {
            assert(ps.subrange(2, 3) =~= seq![ps[2]]);
        }
        out = prepend_field(f1.as_str(), out);
        proof {
            lemma_join_step(ps, 1);
        }
        out = prepend_field(f0.as_str(), out);
        proof {
            lemma_join_step(ps, 0);
            assert(ps.subrange(0, 3) == ps);
            if writable(self.updated) {
                lemma_project_line(*self);
            }
        }
        string_of(out.as_slice())
    }

    /// The project that `line` records, with handle `id`; `None` when the
    /// line records none.
    pub fn decode(line: &str, id: u64) -> (res: Option<Project>)
        ensures
            res is Some <==> read_project(line@) is Some,
            res matches Some(p) ==> project_record(p) == read_project(line@)->0 && p.id == id,
    {
        let cs = chars_of(line);
        let f = split_fields(cs.as_slice(), 3);
        let ghost fv = f@.map_values(|v: Vec<char>| v@);
        proof {
            assert(fv == splitn_tab(line@, 3));
            assert(fv.len() == f@.len());
        }
        if f.len() < 3 {
            return None;
        }
        proof {
            assert(fv[0] == f@[0]@);
            assert(fv[1] == f@[1]@);
            assert(fv[2] == f@[2]@);
        }
        let updated = match parse_stamp(string_of(f[2].as_slice()).as_str()) {
            Some(s) => s,
            None => {
                return None;
            },
        };
        let name = unescape(string_of(f[0].as_slice()).as_str());
        let log = unescape(string_of(f[1].as_slice()).as_str());
        Some(Project { id, name, log, updated })
    }
}

/// Every project, as the projects tab lists them.
pub struct Projects {
    pub items: Vec<Project>,
    /// Where the projects are kept.
    pub path: String,
    /// The last handle given out.
    pub next_id: u64,
}

/// Whether no project in `s` has handle `id`.
pub open spec fn project_id_unused(s: Seq<Project>, id: u64) -> bool {
    forall|k: int| 0 <= k < s.len() ==> (#[trigger] s[k]).id != id
}

impl Projects {
    /// No projects, kept at `path`.
    pub fn new(path: &str) -> (res: Projects)
        ensures
            res.items@ == Seq::<Project>::empty(),
            res.path@ == path@,
            res.next_id == 0,
    {
        Projects { items: Vec::new(), path: path.to_owned(), next_id: 0 }
    }

    /// A handle no project has had yet: one more than the last.
    pub fn next_id(&mut self) -> (res: u64)
        requires
            old(self).next_id < u64::MAX,
        ensures
            res == old(self).next_id + 1,
            final(self).next_id == res,
            final(self).items@ == old(self).items@,
            final(self).path@ == old(self).path@,
            (forall|k: int|
                0 <= k < old(self).items@.len() ==> (#[trigger] old(self).items@[k]).id
                    <= old(self).next_id) ==> project_id_unused(final(self).items@, res),
    {
        self.next_id = self.next_id + 1;
        self.next_id
    }

    /// Position of the project with handle `id`.
    pub fn index_of(&self, id: u64) -> (res: Option<usize>)
        ensures
            res matches Some(i) ==> i < self.items@.len() && self.items@[i as int].id == id
                && project_id_unused(self.items@.subrange(0, i as int), id),
            res is None ==> project_id_unused(self.items@, id),
    {
        let mut i: usize = 0;
        while i < self.items.len()
            invariant
                i <= self.items@.len(),
                project_id_unused(self.items@.subrange(0, i as int), id),
            decreases self.items@.len() - i,
        {
            if self.items[i].id == id {
                return Some(i);
            }
            proof {
                let a = self.items@.subrange(0, i as int);
                let b = self.items@.subrange(0, i + 1);
                assert forall|k: int| 0 <= k < b.len() implies (#[trigger] b[k]).id != id by {
                    if k < i {
                        assert(b[k] == a[k]);
                    }
                }
            }
            i += 1;
        }
        proof {
            assert(self.items@.subrange(0, self.items@.len() as int) == self.items@);
        }
        None
    }

    /// The projects that `text`, the content of their file, holds, kept at
    /// `path`: each line that records a project becomes one, in file order,
    /// with handles counted from 0.
    pub fn from_text(text: &str, path: &str) -> (res: Projects)
        ensures
            records_of_projects(res.items@) == project_records(text_lines(text@)),
            forall|k: int| 0 <= k < res.items@.len() ==> (#[trigger] res.items@[k]).id == k,
            res.next_id == res.items@.len(),
            res.path@ == path@,
    {
        let cs = chars_of(text);
        let lines = text_lines_exec(cs.as_slice());
        let ghost ls = text_lines(text@);
        let mut out = Projects::new(path);
        let mut i: usize = 0;
        proof {
            assert(ls.subrange(0, 0) =~= Seq::<Seq<char>>::empty());
            assert(records_of_projects(out.items@) =~= Seq::<ProjectRecord>::empty());
        }
        while i < lines.len()
            invariant
                lines_view(lines@) == ls,
                i <= ls.len(),
                records_of_projects(out.items@) == project_records(ls.subrange(0, i as int)),
                forall|k: int| 0 <= k < out.items@.len() ==> (#[trigger] out.items@[k]).id == k,
                out.next_id == out.items@.len(),
                out.items@.len() <= i,
                out.path@ == path@,
            decreases ls.len() - i,
        {
            let ghost pre = ls.subrange(0, i as int);
            let ghost nxt = ls.subrange(0, i + 1);
            proof {
                assert(nxt.drop_last() == pre);
                assert(nxt.last() == ls[i as int]);
                assert(lines@[i as int]@ == ls[i as int]);
            }
            let line = string_of(lines[i].as_slice());
            let blank = crate::text::trim_chars(lines[i].as_slice()).len() == 0;
            if !blank {
                match Project::decode(line.as_str(), out.next_id) {
                    Some(p) => {
                        let ghost before = out.items@;
                        out.items.push(p);
                        out.next_id = out.next_id + 1;
                        proof {
                            assert(records_of_projects(out.items@) =~= records_of_projects(
                                before,
                            ).push(project_record(p)));
                        }
                    },
                    None => {},
                }
            }
            i += 1;
        }
        proof {
            assert(ls.subrange(0, ls.len() as int) == ls);
        }
        out
    }

    /// The file's text for these projects, one line each. When every
    /// project's moment is writable, reading the text back gives their
    /// records again, in order.
    pub fn render(&self) -> (res: String)
        ensures
            res@ == projects_text(self.items@),
            (forall|k: int| 0 <= k < self.items@.len() ==> writable(#[trigger] self.items@[k].updated))
                ==> project_records(text_lines(res@)) == records_of_projects(self.items@),
    {
        let mut out: Vec<char> = Vec::new();
        let mut i: usize = 0;
        proof {
            assert(project_lines(self.items@.subrange(0, 0)) =~= Seq::<Seq<char>>::empty());
        }
        while i < self.items.len()
            invariant
                i <= self.items@.len(),
                out@ == terminated(project_lines(self.items@.subrange(0, i as int))),
                forall|k: int|
                    0 <= k < i ==> writable(#[trigger] self.items@[k].updated) ==> line_reads_back(
                        self.items@[k],
                    ),
            decreases self.items@.len() - i,
        {
            let line = self.items[i].encode();
            let mut lc = chars_of(line.as_str());
            out.append(&mut lc);
            out.push('\n');
            proof {
                let a = project_lines(self.items@.subrange(0, i as int));
                let b = project_lines(self.items@.subrange(0, i + 1));
                assert(b.drop_last() =~= a);
                assert(b.last() == project_line(self.items@[i as int]));
            }
            i += 1;
        }
        proof {
            let ps = self.items@;
            assert(ps.subrange(0, ps.len() as int) == ps);
            if forall|k: int| 0 <= k < ps.len() ==> writable(#[trigger] ps[k].updated) {
                lemma_read_back_all(ps);
            }
        }
        string_of(out.as_slice())
    }
}

proof fn lemma_read_back_all(ps: Seq<Project>)
    requires
        forall|k: int| 0 <= k < ps.len() ==> line_reads_back(#[trigger] ps[k]),
    ensures
        project_records(text_lines(projects_text(ps))) == records_of_projects(ps),
{
    let ls = project_lines(ps);
    assert forall|k: int| 0 <= k < ls.len() implies plain_line(#[trigger] ls[k]) by {
        assert(line_reads_back(ps[k]));
    }
    lemma_text_lines_terminated(ls);
    lemma_records_of_project_lines(ps);
}

proof fn lemma_records_of_project_lines(ps: Seq<Project>)
    requires
        forall|k: int| 0 <= k < ps.len() ==> line_reads_back(#[trigger] ps[k]),
    ensures
        project_records(project_lines(ps)) == records_of_projects(ps),
    decreases ps.len(),
{
    if ps.len() > 0 {
        let p0 = ps.drop_last();
        assert forall|k: int| 0 <= k < p0.len() implies line_reads_back(#[trigger] p0[k]) by {
            assert(p0[k] == ps[k]);
        }
        lemma_records_of_project_lines(p0);
        assert(line_reads_back(ps[ps.len() - 1]));
        assert(project_lines(ps).drop_last() == project_lines(p0));
        assert(records_of_projects(ps) == records_of_projects(p0).push(project_record(ps.last())));
    }
}

} // verus!
