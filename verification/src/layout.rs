//! Fitting text to the screen: cutting a line to a width, and word-wrapping
//! details under a todo.

use vstd::prelude::*;

use crate::text::{
    chars_of, is_ws, join_lines, lemma_join_split, lemma_skip_word_bounds, lemma_skip_ws_bounds, lines_view, skip_word,
    skip_word_exec, skip_ws, skip_ws_exec, slice_range, split_lines, split_lines_exec, string_of,
};

verus! {

/// `s` cut to at most `max` characters: unchanged when it fits, otherwise
/// its first `max - 1` characters and an ellipsis; nothing when `max` is 0.
pub open spec fn truncated(s: Seq<char>, max: int) -> Seq<char> {
    if max <= 0 {
        Seq::<char>::empty()
    } else if s.len() <= max {
        s
    } else {
        s.take(max - 1).push('\u{2026}')
    }
}

/// `s` cut to fit in `max` columns, one column per character.
pub fn truncate(s: &str, max: usize) -> (res: String)
    ensures
        res@ == truncated(s@, max as int),
        res@.len() <= max,
{
    if max == 0 {
        return String::new();
    }
    let cs = chars_of(s);
    if cs.len() <= max {
        return s.to_owned();
    }
    let mut out = slice_range(cs.as_slice(), 0, max - 1);
    out.push('\u{2026}');
    proof {
        assert(cs@.subrange(0, max - 1) == s@.take(max - 1));
    }
    string_of(out.as_slice())
}

/// The words of `s` from index `i` on, as `str::split_whitespace` yields
/// them: the runs of characters that are not white space.
pub open spec fn words_from(s: Seq<char>, i: int) -> Seq<Seq<char>>
    decreases s.len() - i,
{
    if i < 0 || i > s.len() {
        Seq::empty()
    } else {
        let a = skip_ws(s, i);
        proof {
            lemma_skip_ws_bounds(s, i);
        }
        if a >= s.len() {
            Seq::empty()
        } else {
            let b = skip_word(s, a);
            proof {
                lemma_skip_word_bounds(s, a);
            }
            seq![s.subrange(a, b)] + words_from(s, b)
        }
    }
}

/// Lines already finished, and the line being filled.
pub type Filling = (Seq<Seq<char>>, Seq<char>);

/// A line longer than `width` is cut into pieces of `width`, each finished
/// in turn, until what is left fits.
pub open spec fn break_long(st: Filling, width: int) -> Filling
    decreases st.1.len(),
{
    if width <= 0 || st.1.len() <= width {
        st
    } else {
        break_long((st.0.push(st.1.take(width)), st.1.skip(width)), width)
    }
}

/// One word placed greedily: it starts the line when the line is empty,
/// joins it after a space when it fits, and otherwise finishes the line and
/// starts the next; a word too long for any line is then cut.
pub open spec fn place_word(st: Filling, w: Seq<char>, width: int) -> Filling {
    let next = if st.1.len() == 0 {
        (st.0, w)
    } else if st.1.len() + 1 + w.len() <= width {
        (st.0, st.1 + seq![' '] + w)
    } else {
        (st.0.push(st.1), w)
    };
    break_long(next, width)
}

pub open spec fn place_words(st: Filling, ws: Seq<Seq<char>>, width: int) -> Filling
    decreases ws.len(),
{
    if ws.len() == 0 {
        st
    } else {
        place_word(place_words(st, ws.drop_last(), width), ws.last(), width)
    }
}

/// A paragraph wrapped after the lines `done`: its words placed on an empty
/// line, and the last line finished, even when empty.
pub open spec fn wrap_para(done: Seq<Seq<char>>, para: Seq<char>, width: int) -> Seq<Seq<char>> {
    let st = place_words((done, Seq::<char>::empty()), words_from(para, 0), width);
    st.0.push(st.1)
}

pub open spec fn wrap_paras(ps: Seq<Seq<char>>, width: int) -> Seq<Seq<char>>
    decreases ps.len(),
{
    if ps.len() == 0 {
        Seq::empty()
    } else {
        wrap_para(wrap_paras(ps.drop_last(), width), ps.last(), width)
    }
}

/// `text` wrapped greedily at `width`, each newline in it starting a new
/// paragraph; nothing at all when the width is 0.
pub open spec fn wrapped(text: Seq<char>, width: int) -> Seq<Seq<char>> {
    if width <= 0 {
        Seq::empty()
    } else {
        wrap_paras(split_lines(text), width)
    }
}

/// Every line in `ls` fits in `width`.
pub open spec fn all_fit(ls: Seq<Seq<char>>, width: int) -> bool {
    forall|k: int| 0 <= k < ls.len() ==> (#[trigger] ls[k]).len() <= width
}

proof fn lemma_break_long_fits(st: Filling, width: int)
    requires
        width > 0,
        all_fit(st.0, width),
    ensures
        all_fit(break_long(st, width).0, width),
        break_long(st, width).1.len() <= width,
    decreases st.1.len(),
{
    if st.1.len() > width {
        let d = st.0.push(st.1.take(width));
        assert forall|k: int| 0 <= k < d.len() implies (#[trigger] d[k]).len() <= width by {
            if k < st.0.len() {
                assert(d[k] == st.0[k]);
            }
        }
        lemma_break_long_fits((d, st.1.skip(width)), width);
    }
}

proof fn lemma_place_words_fits(st: Filling, ws: Seq<Seq<char>>, width: int)
    requires
        width > 0,
        all_fit(st.0, width),
        st.1.len() <= width,
    ensures
        all_fit(place_words(st, ws, width).0, width),
        place_words(st, ws, width).1.len() <= width,
    decreases ws.len(),
{
    if ws.len() > 0 {
        lemma_place_words_fits(st, ws.drop_last(), width);
        let p = place_words(st, ws.drop_last(), width);
        let w = ws.last();
        if p.1.len() == 0 {
            lemma_break_long_fits((p.0, w), width);
        } else if p.1.len() + 1 + w.len() <= width {
            lemma_break_long_fits((p.0, p.1 + seq![' '] + w), width);
        } else {
            let d = p.0.push(p.1);
            assert forall|k: int| 0 <= k < d.len() implies (#[trigger] d[k]).len() <= width by {
                if k < p.0.len() {
                    assert(d[k] == p.0[k]);
                }
            }
            lemma_break_long_fits((d, w), width);
        }
    }
}

proof fn lemma_wrap_paras_fits(ps: Seq<Seq<char>>, width: int)
    requires
        width > 0,
    ensures
        all_fit(wrap_paras(ps, width), width),
    decreases ps.len(),
{
    if ps.len() > 0 {
        lemma_wrap_paras_fits(ps.drop_last(), width);
        let done = wrap_paras(ps.drop_last(), width);
        let st = place_words((done, Seq::<char>::empty()), words_from(ps.last(), 0), width);
        lemma_place_words_fits((done, Seq::<char>::empty()), words_from(ps.last(), 0), width);
        let r = st.0.push(st.1);
        assert forall|k: int| 0 <= k < r.len() implies (#[trigger] r[k]).len() <= width by {
            if k < st.0.len() {
                assert(r[k] == st.0[k]);
            }
        }
    }
}

proof fn lemma_wrap_paras_count(ps: Seq<Seq<char>>, width: int)
    ensures
        wrap_paras(ps, width).len() >= ps.len(),
    decreases ps.len(),
{
    if ps.len() > 0 {
        lemma_wrap_paras_count(ps.drop_last(), width);
        lemma_place_words_keeps(
            (wrap_paras(ps.drop_last(), width), Seq::<char>::empty()),
            words_from(ps.last(), 0),
            width,
        );
    }
}

proof fn lemma_break_long_keeps(st: Filling, width: int)
    ensures
        break_long(st, width).0.len() >= st.0.len(),
    decreases st.1.len(),
{
    if width > 0 && st.1.len() > width {
        lemma_break_long_keeps((st.0.push(st.1.take(width)), st.1.skip(width)), width);
    }
}

proof fn lemma_place_words_keeps(st: Filling, ws: Seq<Seq<char>>, width: int)
    ensures
        place_words(st, ws, width).0.len() >= st.0.len(),
    decreases ws.len(),
{
    if ws.len() > 0 {
        lemma_place_words_keeps(st, ws.drop_last(), width);
        let p = place_words(st, ws.drop_last(), width);
        let w = ws.last();
        if p.1.len() == 0 {
            lemma_break_long_keeps((p.0, w), width);
        } else if p.1.len() + 1 + w.len() <= width {
            lemma_break_long_keeps((p.0, p.1 + seq![' '] + w), width);
        } else {
            lemma_break_long_keeps((p.0.push(p.1), w), width);
        }
    }
}

/// Wrapping never gives a line wider than the width, and gives at least one
/// line for each line of the text, so the newlines already in it are kept.
pub proof fn law_wrap_fits(text: Seq<char>, width: int)
    requires
        width > 0,
    ensures
        all_fit(wrapped(text, width), width),
        wrapped(text, width).len() >= split_lines(text).len(),
{
    lemma_wrap_paras_fits(split_lines(text), width);
    lemma_wrap_paras_count(split_lines(text), width);
}

pub open spec fn strings_view(v: Seq<String>) -> Seq<Seq<char>> {
    v.map_values(|l: String| l@)
}

/// Finishes the lines of `line` that are wider than `width`, as
/// `break_long` does.
fn break_long_exec(out: &mut Vec<String>, line: Vec<char>, width: usize) -> (res: Vec<char>)
    requires
        width > 0,
    ensures
        (strings_view(final(out)@), res@) == break_long(
            (strings_view(old(out)@), line@),
            width as int,
        ),
{
    let ghost start = (strings_view(out@), line@);
    let mut line = line;
    while line.len() > width
        invariant
            width > 0,
            break_long((strings_view(out@), line@), width as int) == break_long(
                start,
                width as int,
            ),
        decreases line@.len(),
    {
        let head = slice_range(line.as_slice(), 0, width);
        let tail = slice_range(line.as_slice(), width, line.len());
        let ghost before = strings_view(out@);
        out.push(string_of(head.as_slice()));
        proof {
            assert(strings_view(out@) =~= before.push(line@.take(width as int)));
            assert(tail@ == line@.skip(width as int));
        }
        line = tail;
    }
    line
}

/// Greedy word wrap that also honours any newlines already in the text:
/// each line holds as many words as fit in `width`, a word too long for a
/// line is hard-broken, and each newline starts a new line.
pub fn wrap(text: &str, width: usize) -> (res: Vec<String>)
    ensures
        strings_view(res@) == wrapped(text@, width as int),
        forall|k: int| 0 <= k < res@.len() ==> (#[trigger] res@[k])@.len() <= width,
{
    let mut out: Vec<String> = Vec::new();
    if width == 0 {
        proof {
            assert(strings_view(out@) =~= Seq::<Seq<char>>::empty());
        }
        return out;
    }
    let cs = chars_of(text);
    let paras = split_lines_exec(cs.as_slice());
    let ghost ps = split_lines(text@);
    let mut pi: usize = 0;
    proof {
        assert(strings_view(out@) =~= Seq::<Seq<char>>::empty());
        assert(ps.subrange(0, 0) =~= Seq::<Seq<char>>::empty());
    }
    while pi < paras.len()
        invariant
            width > 0,
            lines_view(paras@) == ps,
            pi <= ps.len(),
            strings_view(out@) == wrap_paras(ps.subrange(0, pi as int), width as int),
        decreases ps.len() - pi,
    {
        let p = paras[pi].as_slice();
        let ghost pv = p@;
        proof {
            assert(pv == ps[pi as int]);
        }
        let ghost done0 = strings_view(out@);
        let mut line: Vec<char> = Vec::new();
        let mut i: usize = 0;
        let ghost mut consumed: Seq<Seq<char>> = Seq::empty();
        proof {
            assert(consumed + words_from(pv, 0) == words_from(pv, 0));
        }
        loop
            invariant
                width > 0,
                p@ == pv,
                i <= pv.len(),
                consumed + words_from(pv, i as int) == words_from(pv, 0),
                (strings_view(out@), line@) == place_words(
                    (done0, Seq::<char>::empty()),
                    consumed,
                    width as int,
                ),
            ensures
                consumed == words_from(pv, 0),
                (strings_view(out@), line@) == place_words(
                    (done0, Seq::<char>::empty()),
                    consumed,
                    width as int,
                ),
            decreases pv.len() - i,
        {
            let a = skip_ws_exec(p, i);
            proof {
                lemma_skip_ws_bounds(pv, i as int);
            }
            if a >= p.len() {
                proof {
                    assert(words_from(pv, i as int) == Seq::<Seq<char>>::empty());
                    assert(consumed + Seq::<Seq<char>>::empty() == consumed);
                }
                break;
            }
            let b = skip_word_exec(p, a);
            proof {
                lemma_skip_word_bounds(pv, a as int);
            }
            let word = slice_range(p, a, b);
            let wlen = b - a;
            let ghost st = (strings_view(out@), line@);
            let next = if line.len() == 0 {
                word
            } else if line.len() < width && wlen <= width - line.len() - 1 {
                let mut l = line;
                l.push(' ');
                let mut w = word;
                l.append(&mut w);
                l
            } else {
                let ghost before = strings_view(out@);
                out.push(string_of(line.as_slice()));
                proof {
                    assert(strings_view(out@) =~= before.push(st.1));
                }
                word
            };
            proof {
                assert(word@ == pv.subrange(a as int, b as int));
                if st.1.len() != 0 && st.1.len() + 1 + word@.len() <= width {
                    assert(next@ =~= st.1 + seq![' '] + word@);
                }
            }
            line = break_long_exec(&mut out, next, width);
            proof {
                let w = pv.subrange(a as int, b as int);
                assert(words_from(pv, i as int) == seq![w] + words_from(pv, b as int));
                let c2 = consumed.push(w);
                assert(c2 + words_from(pv, b as int) =~= consumed + words_from(pv, i as int));
                assert(c2.drop_last() == consumed);
                assert(c2.last() == w);
                consumed = c2;
            }
            i = b;
        }
        let ghost st = (strings_view(out@), line@);
        let ghost before = strings_view(out@);
        out.push(string_of(line.as_slice()));
        proof {
            assert(strings_view(out@) =~= before.push(st.1));
            let pre = ps.subrange(0, pi as int);
            let nxt = ps.subrange(0, pi + 1);
            assert(nxt.drop_last() == pre);
            assert(nxt.last() == pv);
        }
        pi += 1;
    }
    proof {
        assert(ps.subrange(0, ps.len() as int) == ps);
        law_wrap_fits(text@, width as int);
        assert forall|k: int| 0 <= k < out@.len() implies (#[trigger] out@[k])@.len() <= width by {
            assert(strings_view(out@)[k] == out@[k]@);
        }
    }
    out
}

/// The characters of `s` that are not white space, in order.
pub open spec fn solid(s: Seq<char>) -> Seq<char>
    decreases s.len(),
{
    if s.len() == 0 {
        Seq::empty()
    } else if is_ws(s.last()) {
        solid(s.drop_last())
    } else {
        solid(s.drop_last()).push(s.last())
    }
}

/// The lines `ls` one after another.
pub open spec fn joined(ls: Seq<Seq<char>>) -> Seq<char>
    decreases ls.len(),
{
    if ls.len() == 0 {
        Seq::empty()
    } else {
        joined(ls.drop_last()) + ls.last()
    }
}

/// The characters of `ls`, line after line, that are not white space.
pub open spec fn solid_all(ls: Seq<Seq<char>>) -> Seq<char>
    decreases ls.len(),
{
    if ls.len() == 0 {
        Seq::empty()
    } else {
        solid_all(ls.drop_last()) + solid(ls.last())
    }
}

proof fn lemma_solid_space(c: char)
    requires
        is_ws(c),
    ensures
        solid(seq![c]) == Seq::<char>::empty(),
{
    let s = seq![c];
    assert(s.len() == 1);
    assert(s.last() == c);
    assert(s.drop_last() =~= Seq::<char>::empty());
    assert(solid(Seq::<char>::empty()) == Seq::<char>::empty());
}

proof fn lemma_solid_all_one(w: Seq<char>)
    ensures
        solid_all(seq![w]) == solid(w),
{
    let ls = seq![w];
    assert(ls.len() == 1);
    assert(ls.last() == w);
    assert(ls.drop_last() =~= Seq::<Seq<char>>::empty());
    assert(solid_all(Seq::<Seq<char>>::empty()) == Seq::<char>::empty());
    assert(Seq::<char>::empty() + solid(w) =~= solid(w));
}

proof fn lemma_solid_add(a: Seq<char>, b: Seq<char>)
    ensures
        solid(a + b) == solid(a) + solid(b),
    decreases b.len(),
{
    if b.len() == 0 {
        assert(a + b == a);
        assert(solid(a) + solid(b) == solid(a));
    } else {
        lemma_solid_add(a, b.drop_last());
        assert((a + b).drop_last() == a + b.drop_last());
        assert((a + b).last() == b.last());
    }
}

proof fn lemma_solid_blank(s: Seq<char>)
    requires
        forall|k: int| 0 <= k < s.len() ==> is_ws(#[trigger] s[k]),
    ensures
        solid(s) == Seq::<char>::empty(),
    decreases s.len(),
{
    if s.len() > 0 {
        assert(is_ws(s[s.len() - 1]));
        lemma_solid_blank(s.drop_last());
    }
}

proof fn lemma_solid_all_add(a: Seq<Seq<char>>, b: Seq<Seq<char>>)
    ensures
        solid_all(a + b) == solid_all(a) + solid_all(b),
    decreases b.len(),
{
    if b.len() == 0 {
        assert(a + b == a);
        assert(solid_all(a) + solid_all(b) == solid_all(a));
    } else {
        lemma_solid_all_add(a, b.drop_last());
        assert((a + b).drop_last() == a + b.drop_last());
        assert((a + b).last() == b.last());
    }
}

proof fn lemma_break_long_joined(st: Filling, width: int)
    ensures
        joined(break_long(st, width).0) + break_long(st, width).1 == joined(st.0) + st.1,
    decreases st.1.len(),
{
    if width > 0 && st.1.len() > width {
        let d = st.0.push(st.1.take(width));
        lemma_break_long_joined((d, st.1.skip(width)), width);
        assert(d.drop_last() == st.0);
        assert(st.1.take(width) + st.1.skip(width) == st.1);
        assert(joined(d) + st.1.skip(width) == joined(st.0) + st.1);
    }
}

proof fn lemma_place_word_solid(st: Filling, w: Seq<char>, width: int)
    ensures
        solid(joined(place_word(st, w, width).0) + place_word(st, w, width).1) == solid(
            joined(st.0) + st.1,
        ) + solid(w),
{
    let base = joined(st.0) + st.1;
    let next = if st.1.len() == 0 {
        (st.0, w)
    } else if st.1.len() + 1 + w.len() <= width {
        (st.0, st.1 + seq![' '] + w)
    } else {
        (st.0.push(st.1), w)
    };
    lemma_break_long_joined(next, width);
    if st.1.len() == 0 {
        assert(joined(next.0) + next.1 == base + w);
    } else if st.1.len() + 1 + w.len() <= width {
        assert(joined(next.0) + next.1 == (base + seq![' ']) + w);
        lemma_solid_add(base + seq![' '], w);
        lemma_solid_add(base, seq![' ']);
        lemma_solid_space(' ');
        assert(solid(base) + Seq::<char>::empty() =~= solid(base));
    } else {
        assert(next.0.drop_last() == st.0);
        assert(joined(next.0) + next.1 == base + w);
    }
    lemma_solid_add(base, w);
}

proof fn lemma_place_words_solid(st: Filling, ws: Seq<Seq<char>>, width: int)
    ensures
        solid(joined(place_words(st, ws, width).0) + place_words(st, ws, width).1) == solid(
            joined(st.0) + st.1,
        ) + solid_all(ws),
    decreases ws.len(),
{
    if ws.len() == 0 {
        assert(solid(joined(st.0) + st.1) + solid_all(ws) == solid(joined(st.0) + st.1));
    } else {
        lemma_place_words_solid(st, ws.drop_last(), width);
        lemma_place_word_solid(place_words(st, ws.drop_last(), width), ws.last(), width);
    }
}

proof fn lemma_words_solid(s: Seq<char>, i: int)
    requires
        0 <= i <= s.len(),
    ensures
        solid_all(words_from(s, i)) == solid(s.subrange(i, s.len() as int)),
    decreases s.len() - i,
{
    lemma_skip_ws_bounds(s, i);
    let a = skip_ws(s, i);
    assert forall|k: int| 0 <= k < s.subrange(i, a).len() implies is_ws(
        #[trigger] s.subrange(i, a)[k],
    ) by {
        assert(s.subrange(i, a)[k] == s[i + k]);
    }
    lemma_solid_blank(s.subrange(i, a));
    if a >= s.len() {
        assert(s.subrange(i, s.len() as int) == s.subrange(i, a));
        assert(words_from(s, i) == Seq::<Seq<char>>::empty());
    } else {
        lemma_skip_word_bounds(s, a);
        let b = skip_word(s, a);
        lemma_words_solid(s, b);
        let w = s.subrange(a, b);
        assert(words_from(s, i) == seq![w] + words_from(s, b));
        lemma_solid_all_add(seq![w], words_from(s, b));
        lemma_solid_all_one(w);
        assert(s.subrange(i, s.len() as int) == s.subrange(i, a) + (w + s.subrange(
            b,
            s.len() as int,
        )));
        lemma_solid_add(s.subrange(i, a), w + s.subrange(b, s.len() as int));
        lemma_solid_add(w, s.subrange(b, s.len() as int));
        assert(Seq::<char>::empty() + (solid(w) + solid(s.subrange(b, s.len() as int))) == solid(
            w,
        ) + solid(s.subrange(b, s.len() as int)));
    }
}

proof fn lemma_wrap_paras_solid(ps: Seq<Seq<char>>, width: int)
    ensures
        solid(joined(wrap_paras(ps, width))) == solid_all(ps),
    decreases ps.len(),
{
    if ps.len() > 0 {
        lemma_wrap_paras_solid(ps.drop_last(), width);
        let done = wrap_paras(ps.drop_last(), width);
        let p = ps.last();
        let st = place_words((done, Seq::<char>::empty()), words_from(p, 0), width);
        lemma_place_words_solid((done, Seq::<char>::empty()), words_from(p, 0), width);
        lemma_words_solid(p, 0);
        assert(p.subrange(0, p.len() as int) == p);
        assert(joined(done) + Seq::<char>::empty() == joined(done));
        let r = st.0.push(st.1);
        assert(r.drop_last() == st.0);
        assert(joined(r) == joined(st.0) + st.1);
    }
}

proof fn lemma_solid_join_lines(ps: Seq<Seq<char>>)
    ensures
        solid(join_lines(ps)) == solid_all(ps),
    decreases ps.len(),
{
    if ps.len() == 1 {
        assert(ps =~= seq![ps[0]]);
        lemma_solid_all_one(ps[0]);
    } else if ps.len() > 1 {
        lemma_solid_join_lines(ps.drop_last());
        let a = join_lines(ps.drop_last());
        lemma_solid_add(a + seq!['\n'], ps.last());
        lemma_solid_add(a, seq!['\n']);
        lemma_solid_space('\n');
        assert(solid(a) + Seq::<char>::empty() =~= solid(a));
    }
}

/// Wrapping keeps every word, in order: the characters of the lines that
/// are not white space are those of the text, in the same order. Only white
/// space is dropped, turned into line breaks or single spaces.
pub proof fn law_wrap_keeps_words(text: Seq<char>, width: int)
    requires
        width > 0,
    ensures
        solid(joined(wrapped(text, width))) == solid(text),
{
    lemma_wrap_paras_solid(split_lines(text), width);
    lemma_solid_join_lines(split_lines(text));
    lemma_join_split(text);
}

/// The lines of each paragraph in `ps` wrapped on its own, one block after
/// another.
pub open spec fn wrap_each(ps: Seq<Seq<char>>, width: int) -> Seq<Seq<char>>
    decreases ps.len(),
{
    if ps.len() == 0 {
        Seq::empty()
    } else {
        wrap_each(ps.drop_last(), width) + wrap_para(Seq::empty(), ps.last(), width)
    }
}

proof fn lemma_break_long_shift(d: Seq<Seq<char>>, a: Seq<Seq<char>>, l: Seq<char>, width: int)
    ensures
        break_long((d + a, l), width) == (d + break_long((a, l), width).0, break_long(
            (a, l),
            width,
        ).1),
    decreases l.len(),
{
    if width <= 0 || l.len() <= width {
    } else {
        let t = l.take(width);
        assert((d + a).push(t) == d + a.push(t));
        lemma_break_long_shift(d, a.push(t), l.skip(width), width);
    }
}

proof fn lemma_place_word_shift(
    d: Seq<Seq<char>>,
    a: Seq<Seq<char>>,
    l: Seq<char>,
    w: Seq<char>,
    width: int,
)
    ensures
        place_word((d + a, l), w, width) == (d + place_word((a, l), w, width).0, place_word(
            (a, l),
            w,
            width,
        ).1),
{
    if l.len() == 0 {
        lemma_break_long_shift(d, a, w, width);
    } else if l.len() + 1 + w.len() <= width {
        lemma_break_long_shift(d, a, l + seq![' '] + w, width);
    } else {
        assert((d + a).push(l) == d + a.push(l));
        lemma_break_long_shift(d, a.push(l), w, width);
    }
}

proof fn lemma_place_words_shift(
    d: Seq<Seq<char>>,
    a: Seq<Seq<char>>,
    l: Seq<char>,
    ws: Seq<Seq<char>>,
    width: int,
)
    ensures
        place_words((d + a, l), ws, width) == (d + place_words((a, l), ws, width).0, place_words(
            (a, l),
            ws,
            width,
        ).1),
    decreases ws.len(),
{
    if ws.len() > 0 {
        lemma_place_words_shift(d, a, l, ws.drop_last(), width);
        let p = place_words((a, l), ws.drop_last(), width);
        lemma_place_word_shift(d, p.0, p.1, ws.last(), width);
    }
}

proof fn lemma_wrap_para_shift(done: Seq<Seq<char>>, para: Seq<char>, width: int)
    ensures
        wrap_para(done, para, width) == done + wrap_para(Seq::empty(), para, width),
{
    let e = Seq::<Seq<char>>::empty();
    assert(done + e == done);
    lemma_place_words_shift(done, e, Seq::<char>::empty(), words_from(para, 0), width);
    let st = place_words((e, Seq::<char>::empty()), words_from(para, 0), width);
    assert((done + st.0).push(st.1) == done + st.0.push(st.1));
}

proof fn lemma_wrap_paras_each(ps: Seq<Seq<char>>, width: int)
    ensures
        wrap_paras(ps, width) == wrap_each(ps, width),
    decreases ps.len(),
{
    if ps.len() > 0 {
        lemma_wrap_paras_each(ps.drop_last(), width);
        lemma_wrap_para_shift(wrap_paras(ps.drop_last(), width), ps.last(), width);
    }
}

/// A text is wrapped line by line: each of its lines is wrapped on its own,
/// starting on a fresh line, and the blocks follow one another in order.
pub proof fn law_wrap_by_paragraph(text: Seq<char>, width: int)
    requires
        width > 0,
    ensures
        wrapped(text, width) == wrap_each(split_lines(text), width),
{
    lemma_wrap_paras_each(split_lines(text), width);
}

} // verus!
