//! Character-level helpers shared by the rest of the library: whitespace,
//! trimming, splitting and the conversions between `str` and `Vec<char>`.

use vstd::prelude::*;

verus! {

/// Unicode `White_Space`, the property that `char::is_whitespace` tests.
pub open spec fn is_ws(c: char) -> bool {
    ||| c == ' '
    ||| ('\x09' <= c && c <= '\x0d')
    ||| c == '\u{85}'
    ||| c == '\u{a0}'
    ||| c == '\u{1680}'
    ||| ('\u{2000}' <= c && c <= '\u{200a}')
    ||| c == '\u{2028}'
    ||| c == '\u{2029}'
    ||| c == '\u{202f}'
    ||| c == '\u{205f}'
    ||| c == '\u{3000}'
}

/// Whether `c` is white space, as `char::is_whitespace` decides it.
pub fn is_whitespace(c: char) -> (res: bool)
    ensures
        res == is_ws(c),
{
    c == ' ' || ('\x09' <= c && c <= '\x0d') || c == '\u{85}' || c == '\u{a0}' || c == '\u{1680}'
        || ('\u{2000}' <= c && c <= '\u{200a}') || c == '\u{2028}' || c == '\u{2029}' || c
        == '\u{202f}' || c == '\u{205f}' || c == '\u{3000}'
}

/// The characters of `s`, in order.
pub fn chars_of(s: &str) -> (res: Vec<char>)
    ensures
        res@ == s@,
{
    broadcast use vstd::string::group_string_axioms;

    let mut v: Vec<char> = Vec::new();
    for c in it: s.chars()
        invariant
            it.seq() == s@,
            v@ == it.seq().take(it.index() as int),
    {
        v.push(c);
    }
    v
}

/// The string spelled by `v`: std's `String::from_iter` over the
/// characters, which it takes in order.
#[verifier::external_body]
pub(crate) fn string_of(v: &[char]) -> (res: String)
    ensures
        res@ == v@,
{
    String::from_iter(v)
}


/// First index at or after `i` that does not hold white space (or the length).
pub open spec fn skip_ws(s: Seq<char>, i: int) -> int
    decreases s.len() - i,
{
    if 0 <= i < s.len() && is_ws(s[i]) {
        skip_ws(s, i + 1)
    } else {
        i
    }
}

/// First index at or after `i` that holds white space (or the length).
pub open spec fn skip_word(s: Seq<char>, i: int) -> int
    decreases s.len() - i,
{
    if 0 <= i < s.len() && !is_ws(s[i]) {
        skip_word(s, i + 1)
    } else {
        i
    }
}

/// Walking back from `j` while the character before it is white space,
/// stopping at `lo`.
pub open spec fn back_ws(s: Seq<char>, lo: int, j: int) -> int
    decreases j - lo,
{
    if lo < j <= s.len() && is_ws(s[j - 1]) {
        back_ws(s, lo, j - 1)
    } else {
        j
    }
}

/// Walking back from `j` while the character before it is not white space,
/// stopping at `lo`.
pub open spec fn back_word(s: Seq<char>, lo: int, j: int) -> int
    decreases j - lo,
{
    if lo < j <= s.len() && !is_ws(s[j - 1]) {
        back_word(s, lo, j - 1)
    } else {
        j
    }
}

pub proof fn lemma_skip_ws_bounds(s: Seq<char>, i: int)
    requires
        0 <= i <= s.len(),
    ensures
        i <= skip_ws(s, i) <= s.len(),
        forall|k: int| i <= k < skip_ws(s, i) ==> is_ws(#[trigger] s[k]),
        skip_ws(s, i) < s.len() ==> !is_ws(s[skip_ws(s, i)]),
    decreases s.len() - i,
{
    if i < s.len() && is_ws(s[i]) {
        lemma_skip_ws_bounds(s, i + 1);
    }
}

pub proof fn lemma_skip_word_bounds(s: Seq<char>, i: int)
    requires
        0 <= i <= s.len(),
    ensures
        i <= skip_word(s, i) <= s.len(),
        forall|k: int| i <= k < skip_word(s, i) ==> !is_ws(#[trigger] s[k]),
        skip_word(s, i) < s.len() ==> is_ws(s[skip_word(s, i)]),
    decreases s.len() - i,
{
    if i < s.len() && !is_ws(s[i]) {
        lemma_skip_word_bounds(s, i + 1);
    }
}

pub proof fn lemma_back_ws_bounds(s: Seq<char>, lo: int, j: int)
    requires
        0 <= lo <= j <= s.len(),
    ensures
        lo <= back_ws(s, lo, j) <= j,
        forall|k: int| back_ws(s, lo, j) <= k < j ==> is_ws(#[trigger] s[k]),
        back_ws(s, lo, j) > lo ==> !is_ws(s[back_ws(s, lo, j) - 1]),
    decreases j - lo,
{
    if lo < j && is_ws(s[j - 1]) {
        lemma_back_ws_bounds(s, lo, j - 1);
    }
}

pub proof fn lemma_back_word_bounds(s: Seq<char>, lo: int, j: int)
    requires
        0 <= lo <= j <= s.len(),
    ensures
        lo <= back_word(s, lo, j) <= j,
        forall|k: int| back_word(s, lo, j) <= k < j ==> !is_ws(#[trigger] s[k]),
        back_word(s, lo, j) > lo ==> is_ws(s[back_word(s, lo, j) - 1]),
    decreases j - lo,
{
    if lo < j && !is_ws(s[j - 1]) {
        lemma_back_word_bounds(s, lo, j - 1);
    }
}

/// `skip_ws` computed on a slice of characters.
pub fn skip_ws_exec(s: &[char], i: usize) -> (res: usize)
    requires
        i <= s@.len(),
    ensures
        res == skip_ws(s@, i as int),
{
    let mut k = i;
    while k < s.len() && is_whitespace(s[k])
        invariant
            i <= k <= s@.len(),
            skip_ws(s@, k as int) == skip_ws(s@, i as int),
        decreases s@.len() - k,
    {
        k += 1;
    }
    k
}

/// `skip_word` computed on a slice of characters.
pub fn skip_word_exec(s: &[char], i: usize) -> (res: usize)
    requires
        i <= s@.len(),
    ensures
        res == skip_word(s@, i as int),
{
    let mut k = i;
    while k < s.len() && !is_whitespace(s[k])
        invariant
            i <= k <= s@.len(),
            skip_word(s@, k as int) == skip_word(s@, i as int),
        decreases s@.len() - k,
    {
        k += 1;
    }
    k
}

/// `back_ws` computed on a slice of characters.
pub fn back_ws_exec(s: &[char], lo: usize, j: usize) -> (res: usize)
    requires
        lo <= j <= s@.len(),
    ensures
        res == back_ws(s@, lo as int, j as int),
{
    let mut k = j;
    while k > lo && is_whitespace(s[k - 1])
        invariant
            lo <= k <= j,
            j <= s@.len(),
            back_ws(s@, lo as int, k as int) == back_ws(s@, lo as int, j as int),
        decreases k,
    {
        k -= 1;
    }
    k
}

/// `back_word` computed on a slice of characters.
pub fn back_word_exec(s: &[char], lo: usize, j: usize) -> (res: usize)
    requires
        lo <= j <= s@.len(),
    ensures
        res == back_word(s@, lo as int, j as int),
{
    let mut k = j;
    while k > lo && !is_whitespace(s[k - 1])
        invariant
            lo <= k <= j,
            j <= s@.len(),
            back_word(s@, lo as int, k as int) == back_word(s@, lo as int, j as int),
        decreases k,
    {
        k -= 1;
    }
    k
}

/// `s` with the white space at both ends taken off, as `str::trim` does.
pub open spec fn trim(s: Seq<char>) -> Seq<char> {
    let a = skip_ws(s, 0);
    s.subrange(a, back_ws(s, a, s.len() as int))
}

/// `trim` computed on a slice of characters.
pub fn trim_chars(s: &[char]) -> (res: Vec<char>)
    ensures
        res@ == trim(s@),
{
    let a = skip_ws_exec(s, 0);
    proof {
        lemma_skip_ws_bounds(s@, 0);
    }
    let b = back_ws_exec(s, a, s.len());
    proof {
        lemma_back_ws_bounds(s@, a as int, s@.len() as int);
    }
    slice_range(s, a, b)
}

/// The characters of `s` from `a` up to, not including, `b`.
pub fn slice_range(s: &[char], a: usize, b: usize) -> (res: Vec<char>)
    requires
        a <= b <= s@.len(),
    ensures
        res@ == s@.subrange(a as int, b as int),
{
    let mut out: Vec<char> = Vec::new();
    let mut k = a;
    while k < b
        invariant
            a <= k <= b <= s@.len(),
            out@ == s@.subrange(a as int, k as int),
        decreases b - k,
    {
        out.push(s[k]);
        k += 1;
    }
    out
}

/// Whether the two runs of characters are equal.
pub fn chars_eq(a: &[char], b: &[char]) -> (res: bool)
    ensures
        res == (a@ == b@),
{
    if a.len() != b.len() {
        return false;
    }
    let mut k: usize = 0;
    while k < a.len()
        invariant
            a@.len() == b@.len(),
            k <= a@.len(),
            a@.subrange(0, k as int) == b@.subrange(0, k as int),
        decreases a@.len() - k,
    {
        if a[k] != b[k] {
            return false;
        }
        proof {
            assert(a@.subrange(0, k + 1) == a@.subrange(0, k as int).push(a@[k as int]));
            assert(b@.subrange(0, k + 1) == b@.subrange(0, k as int).push(b@[k as int]));
        }
        k += 1;
    }
    assert(a@ == a@.subrange(0, a@.len() as int));
    assert(b@ == b@.subrange(0, b@.len() as int));
    true
}

pub open spec fn is_digit(c: char) -> bool {
    '0' <= c && c <= '9'
}

pub open spec fn digit_value(c: char) -> int {
    c as int - '0' as int
}

pub open spec fn digit_char(d: int) -> char {
    (d + '0' as int) as char
}

/// Whether every character of `s` is an ASCII digit.
pub open spec fn all_digits(s: Seq<char>) -> bool {
    forall|i: int| 0 <= i < s.len() ==> is_digit(#[trigger] s[i])
}

/// The number the digits `s` spell in base ten.
pub open spec fn digits_value(s: Seq<char>) -> int
    decreases s.len(),
{
    if s.len() == 0 {
        0
    } else {
        digits_value(s.drop_last()) * 10 + digit_value(s.last())
    }
}

/// The decimal digits of `n`, as `{}` prints an unsigned integer.
pub open spec fn decimal(n: nat) -> Seq<char>
    decreases n,
{
    if n < 10 {
        seq![digit_char(n as int)]
    } else {
        decimal(n / 10).push(digit_char((n % 10) as int))
    }
}

/// What `u32::from_str` makes of `s`: an optional `+`, then at least one
/// digit, with a value that fits.
pub open spec fn parse_u32(s: Seq<char>) -> Option<int> {
    let t = if s.len() > 0 && s[0] == '+' {
        s.drop_first()
    } else {
        s
    };
    if t.len() > 0 && all_digits(t) && digits_value(t) <= u32::MAX {
        Some(digits_value(t))
    } else {
        None
    }
}

/// First index at or after `i` that does not hold a digit (or the length).
pub open spec fn skip_digits(s: Seq<char>, i: int) -> int
    decreases s.len() - i,
{
    if 0 <= i < s.len() && is_digit(s[i]) {
        skip_digits(s, i + 1)
    } else {
        i
    }
}

pub proof fn lemma_skip_digits_bounds(s: Seq<char>, i: int)
    requires
        0 <= i <= s.len(),
    ensures
        i <= skip_digits(s, i) <= s.len(),
        forall|k: int| i <= k < skip_digits(s, i) ==> is_digit(#[trigger] s[k]),
        skip_digits(s, i) < s.len() ==> !is_digit(s[skip_digits(s, i)]),
    decreases s.len() - i,
{
    if i < s.len() && is_digit(s[i]) {
        lemma_skip_digits_bounds(s, i + 1);
    }
}

/// `skip_digits` computed on a slice of characters.
pub fn skip_digits_exec(s: &[char], i: usize) -> (res: usize)
    requires
        i <= s@.len(),
    ensures
        res == skip_digits(s@, i as int),
{
    let mut k = i;
    while k < s.len() && '0' <= s[k] && s[k] <= '9'
        invariant
            i <= k <= s@.len(),
            skip_digits(s@, k as int) == skip_digits(s@, i as int),
        decreases s@.len() - k,
    {
        k += 1;
    }
    k
}

pub proof fn lemma_digits_value_nonneg(s: Seq<char>)
    requires
        all_digits(s),
    ensures
        digits_value(s) >= 0,
    decreases s.len(),
{
    if s.len() > 0 {
        assert(is_digit(s[s.len() - 1]));
        lemma_digits_value_nonneg(s.drop_last());
    }
}

/// The value of the digits `s`, if it is at most `max`.
pub fn digits_value_upto(s: &[char], max: u64) -> (res: Option<u64>)
    requires
        all_digits(s@),
    ensures
        res matches Some(v) ==> v == digits_value(s@) && v <= max,
        res is None ==> digits_value(s@) > max,
{
    let mut v: u64 = 0;
    let mut k: usize = 0;
    while k < s.len()
        invariant
            k <= s@.len(),
            all_digits(s@),
            v == digits_value(s@.subrange(0, k as int)),
            v <= max,
        decreases s@.len() - k,
    {
        let d = (s[k] as u32 - '0' as u32) as u64;
        proof {
            let t = s@.subrange(0, k + 1);
            assert(t.drop_last() == s@.subrange(0, k as int));
            assert(t.last() == s@[k as int]);
            assert(is_digit(s@[k as int]));
        }
        if d > max || v > (max - d) / 10 {
            proof {
                let t = s@.subrange(0, k + 1);
                if d <= max {
                    assert(v * 10 + d > max) by (nonlinear_arith)
                        requires
                            v > (max - d) / 10,
                            d <= max,
                    ;
                }
                assert(digits_value(t) > max);
                lemma_prefix_value_grows(s@, k + 1);
            }
            return None;
        }
        proof {
            assert(v * 10 + d <= max) by (nonlinear_arith)
                requires
                    v <= (max - d) / 10,
                    d <= max,
            ;
        }
        v = v * 10 + d;
        k += 1;
    }
    proof {
        assert(s@.subrange(0, s@.len() as int) == s@);
    }
    Some(v)
}

/// Appending digits never makes the value smaller.
pub proof fn lemma_prefix_value_grows(s: Seq<char>, k: int)
    requires
        all_digits(s),
        0 <= k <= s.len(),
    ensures
        digits_value(s.subrange(0, k)) <= digits_value(s),
    decreases s.len() - k,
{
    if k < s.len() {
        lemma_prefix_value_grows(s, k + 1);
        let t = s.subrange(0, k + 1);
        assert(t.drop_last() == s.subrange(0, k));
        assert(is_digit(s[k]));
        lemma_digits_value_nonneg(s.subrange(0, k));
        assert(all_digits(s.subrange(0, k)));
    } else {
        assert(s.subrange(0, k) == s);
    }
}

/// `parse_u32` computed on a slice of characters.
pub fn parse_u32_chars(s: &[char]) -> (res: Option<u32>)
    ensures
        res matches Some(v) ==> parse_u32(s@) == Some(v as int),
        res is None ==> parse_u32(s@) is None,
{
    let start: usize = if s.len() > 0 && s[0] == '+' {
        1
    } else {
        0
    };
    let t = slice_range(s, start, s.len());
    proof {
        if start == 1 {
            assert(t@ == s@.drop_first());
        } else {
            assert(t@ == s@);
        }
    }
    if t.len() == 0 {
        return None;
    }
    let e = skip_digits_exec(t.as_slice(), 0);
    proof {
        lemma_skip_digits_bounds(t@, 0);
    }
    if e < t.len() {
        return None;
    }
    match digits_value_upto(t.as_slice(), 0xffff_ffff) {
        Some(v) => Some(v as u32),
        None => None,
    }
}

/// `decimal` computed for a machine integer.
pub fn decimal_chars(n: u64) -> (res: Vec<char>)
    ensures
        res@ == decimal(n as nat),
    decreases n,
{
    if n < 10 {
        let mut v: Vec<char> = Vec::new();
        v.push(((n as u32) + ('0' as u32)) as u8 as char);
        proof {
            assert(v@ == decimal(n as nat));
        }
        v
    } else {
        let mut v = decimal_chars(n / 10);
        v.push((((n % 10) as u32) + ('0' as u32)) as u8 as char);
        v
    }
}

/// `decimal` of one more than `n`.
pub fn decimal_succ(n: usize) -> (res: Vec<char>)
    ensures
        res@ == decimal((n + 1) as nat),
{
    if (n as u64) < u64::MAX {
        decimal_chars((n as u64) + 1)
    } else {
        let mut v = decimal_chars(1844674407370955161u64);
        v.push('6');
        proof {
            assert(n + 1 == 18446744073709551616nat);
            assert(decimal(18446744073709551616nat) == decimal(1844674407370955161nat).push(
                digit_char(6),
            ));
        }
        v
    }
}

/// `s` cut at every newline, as `str::split('\n')` cuts it: one piece more
/// than there are newlines.
pub open spec fn split_lines(s: Seq<char>) -> Seq<Seq<char>>
    decreases s.len(),
{
    if s.len() == 0 {
        seq![Seq::<char>::empty()]
    } else {
        let p = split_lines(s.drop_last());
        if s.last() == '\n' {
            p.push(Seq::<char>::empty())
        } else {
            p.update(p.len() - 1, p.last().push(s.last()))
        }
    }
}

/// The lines put back together with a newline between each two.
pub open spec fn join_lines(ls: Seq<Seq<char>>) -> Seq<char>
    decreases ls.len(),
{
    if ls.len() == 0 {
        Seq::<char>::empty()
    } else if ls.len() == 1 {
        ls[0]
    } else {
        join_lines(ls.drop_last()) + seq!['\n'] + ls.last()
    }
}

pub proof fn lemma_split_lines_nonempty(s: Seq<char>)
    ensures
        split_lines(s).len() >= 1,
    decreases s.len(),
{
    if s.len() > 0 {
        lemma_split_lines_nonempty(s.drop_last());
    }
}

/// Cutting a text into lines and joining them again gives the text back.
pub proof fn lemma_join_split(s: Seq<char>)
    ensures
        join_lines(split_lines(s)) == s,
    decreases s.len(),
{
    if s.len() > 0 {
        let t = s.drop_last();
        lemma_join_split(t);
        lemma_split_lines_nonempty(t);
        let p = split_lines(t);
        if s.last() == '\n' {
            let q = p.push(Seq::<char>::empty());
            assert(q.drop_last() == p);
            assert(join_lines(q) == join_lines(p) + seq!['\n'] + Seq::<char>::empty());
            assert(s == t.push('\n'));
        } else {
            let q = p.update(p.len() - 1, p.last().push(s.last()));
            if p.len() == 1 {
                assert(s == t.push(s.last()));
            } else {
                assert(q.drop_last() == p.drop_last());
                assert(join_lines(q) == join_lines(p.drop_last()) + seq!['\n'] + p.last().push(
                    s.last(),
                ));
                assert(join_lines(p) == join_lines(p.drop_last()) + seq!['\n'] + p.last());
                assert(s == t.push(s.last()));
            }
        }
    }
}

pub open spec fn lines_view(v: Seq<Vec<char>>) -> Seq<Seq<char>> {
    v.map_values(|l: Vec<char>| l@)
}

/// `split_lines` computed on a run of characters.
pub fn split_lines_exec(s: &[char]) -> (res: Vec<Vec<char>>)
    ensures
        lines_view(res@) == split_lines(s@),
{
    let mut out: Vec<Vec<char>> = Vec::new();
    out.push(Vec::new());
    let mut k: usize = 0;
    proof {
        assert(s@.subrange(0, 0) == Seq::<char>::empty());
        assert(lines_view(out@) =~= split_lines(Seq::<char>::empty()));
    }
    while k < s.len()
        invariant
            k <= s@.len(),
            lines_view(out@) == split_lines(s@.subrange(0, k as int)),
            out@.len() >= 1,
        decreases s@.len() - k,
    {
        let c = s[k];
        let ghost before = lines_view(out@);
        proof {
            let t = s@.subrange(0, k + 1);
            assert(t.drop_last() == s@.subrange(0, k as int));
            assert(t.last() == c);
        }
        if c == '\n' {
            out.push(Vec::new());
            proof {
                assert(lines_view(out@) =~= before.push(Seq::<char>::empty()));
            }
        } else {
            let last = out.len() - 1;
            out[last].push(c);
            proof {
                assert(lines_view(out@) =~= before.update(
                    before.len() - 1,
                    before.last().push(c),
                ));
            }
        }
        k += 1;
    }
    proof {
        assert(s@.subrange(0, s@.len() as int) == s@);
    }
    out
}

/// `join_lines` computed on lines of characters.
pub fn join_lines_exec(lines: &Vec<Vec<char>>) -> (res: Vec<char>)
    ensures
        res@ == join_lines(lines_view(lines@)),
{
    let mut out: Vec<char> = Vec::new();
    if lines.len() == 0 {
        return out;
    }
    out = slice_range(lines[0].as_slice(), 0, lines[0].len());
    let mut i: usize = 1;
    proof {
        let lv = lines_view(lines@);
        assert(lines@[0]@.subrange(0, lines@[0]@.len() as int) == lines@[0]@);
        assert(lv.subrange(0, 1).len() == 1);
        assert(lv.subrange(0, 1)[0] == lv[0]);
    }
    while i < lines.len()
        invariant
            1 <= i <= lines@.len(),
            out@ == join_lines(lines_view(lines@).subrange(0, i as int)),
        decreases lines@.len() - i,
    {
        out.push('\n');
        let mut piece = slice_range(lines[i].as_slice(), 0, lines[i].len());
        out.append(&mut piece);
        proof {
            let lv = lines_view(lines@);
            let t = lv.subrange(0, i + 1);
            assert(lines@[i as int]@.subrange(0, lines@[i as int]@.len() as int)
                == lines@[i as int]@);
            assert(t.drop_last() == lv.subrange(0, i as int));
            assert(t.last() == lv[i as int]);
        }
        i += 1;
    }
    proof {
        assert(lines_view(lines@).subrange(0, lines@.len() as int) == lines_view(lines@));
    }
    out
}

/// First index at or after `i` that holds `c` (or the length).
pub open spec fn find_char(s: Seq<char>, c: char, i: int) -> int
    decreases s.len() - i,
{
    if 0 <= i < s.len() && s[i] != c {
        find_char(s, c, i + 1)
    } else {
        i
    }
}

pub proof fn lemma_find_char(s: Seq<char>, c: char, i: int)
    requires
        0 <= i <= s.len(),
    ensures
        i <= find_char(s, c, i) <= s.len(),
        forall|k: int| i <= k < find_char(s, c, i) ==> #[trigger] s[k] != c,
        find_char(s, c, i) < s.len() ==> s[find_char(s, c, i)] == c,
    decreases s.len() - i,
{
    if i < s.len() && s[i] != c {
        lemma_find_char(s, c, i + 1);
    }
}

/// `find_char` computed on a slice of characters.
pub fn find_char_exec(s: &[char], c: char, i: usize) -> (res: usize)
    requires
        i <= s@.len(),
    ensures
        res == find_char(s@, c, i as int),
{
    let mut k = i;
    while k < s.len() && s[k] != c
        invariant
            i <= k <= s@.len(),
            find_char(s@, c, k as int) == find_char(s@, c, i as int),
        decreases s@.len() - k,
    {
        k += 1;
    }
    k
}

/// `l` without one carriage return at its end.
pub open spec fn strip_cr(l: Seq<char>) -> Seq<char> {
    if l.len() > 0 && l.last() == '\r' {
        l.drop_last()
    } else {
        l
    }
}

/// The lines of `text` as `str::lines` yields them: cut at each newline,
/// with a carriage return just before a newline dropped, and no empty line
/// after a final newline.
pub open spec fn text_lines(text: Seq<char>) -> Seq<Seq<char>> {
    let p = split_lines(text);
    let q = Seq::new(
        p.len(),
        |i: int|
            if i < p.len() - 1 {
                strip_cr(p[i])
            } else {
                p[i]
            },
    );
    if q.len() > 0 && q.last().len() == 0 {
        q.drop_last()
    } else {
        q
    }
}

/// `text_lines` computed on a run of characters.
pub fn text_lines_exec(s: &[char]) -> (res: Vec<Vec<char>>)
    ensures
        lines_view(res@) == text_lines(s@),
{
    let pieces = split_lines_exec(s);
    proof {
        lemma_split_lines_nonempty(s@);
    }
    let ghost p = split_lines(s@);
    let n = pieces.len();
    let mut out: Vec<Vec<char>> = Vec::new();
    let mut i: usize = 0;
    while i < n
        invariant
            n == p.len(),
            n >= 1,
            lines_view(pieces@) == p,
            i <= n,
            out@.len() == i,
            forall|k: int|
                0 <= k < i ==> (#[trigger] out@[k])@ == (if k < p.len() - 1 {
                    strip_cr(p[k])
                } else {
                    p[k]
                }),
        decreases n - i,
    {
        let l = &pieces[i];
        proof {
            assert(l@ == p[i as int]);
        }
        let len = l.len();
        let keep = if i < n - 1 && len > 0 && l[len - 1] == '\r' {
            len - 1
        } else {
            len
        };
        let piece = slice_range(l.as_slice(), 0, keep);
        proof {
            assert(l@.subrange(0, len as int) == l@);
            assert(l@.subrange(0, len - 1) == l@.drop_last());
        }
        out.push(piece);
        i += 1;
    }
    let ghost q = Seq::new(
        p.len(),
        |i: int|
            if i < p.len() - 1 {
                strip_cr(p[i])
            } else {
                p[i]
            },
    );
    proof {
        assert(lines_view(out@) =~= q);
    }
    if out[n - 1].len() == 0 {
        out.pop();
        proof {
            assert(lines_view(out@) =~= q.drop_last());
        }
    }
    out
}

/// A text with no newline is a single line.
pub proof fn lemma_split_single(s: Seq<char>)
    requires
        forall|i: int| 0 <= i < s.len() ==> s[i] != '\n',
    ensures
        split_lines(s) == seq![s],
    decreases s.len(),
{
    if s.len() > 0 {
        let t = s.drop_last();
        assert forall|i: int| 0 <= i < t.len() implies t[i] != '\n' by {
            assert(t[i] == s[i]);
        }
        lemma_split_single(t);
        assert(s[s.len() - 1] != '\n');
        assert(t.push(s.last()) == s);
        assert(seq![t].update(0, t.push(s.last())) == seq![s]);
        assert(split_lines(s) == split_lines(t).update(
            split_lines(t).len() - 1,
            split_lines(t).last().push(s.last()),
        ));
    } else {
        assert(s == Seq::<char>::empty());
    }
}

/// Cutting at a newline: the lines before it, then the lines after it.
pub proof fn lemma_split_concat(x: Seq<char>, y: Seq<char>)
    ensures
        split_lines(x + seq!['\n'] + y) == split_lines(x) + split_lines(y),
    decreases y.len(),
{
    let xn = x + seq!['\n'];
    if y.len() == 0 {
        assert(xn + y == xn);
        assert(xn.drop_last() == x);
    } else {
        let y0 = y.drop_last();
        lemma_split_concat(x, y0);
        lemma_split_lines_nonempty(y0);
        let s = xn + y;
        assert(s.drop_last() == xn + y0);
        assert(s.last() == y.last());
        let a = split_lines(x);
        let b = split_lines(y0);
        if y.last() == '\n' {
            assert((a + b).push(Seq::<char>::empty()) == a + b.push(Seq::<char>::empty()));
        } else {
            assert((a + b).update((a + b).len() - 1, (a + b).last().push(y.last())) == a + b.update(
                b.len() - 1,
                b.last().push(y.last()),
            ));
        }
    }
}

/// Text that neither starts nor ends with white space is its own trim.
pub proof fn lemma_trim_id(s: Seq<char>)
    requires
        s.len() > 0,
        !is_ws(s[0]),
        !is_ws(s.last()),
    ensures
        trim(s) == s,
{
    assert(skip_ws(s, 0) == 0);
    assert(back_ws(s, 0, s.len() as int) == s.len());
    assert(s.subrange(0, s.len() as int) == s);
}

/// A character that is not white space makes the trim non-empty.
pub proof fn lemma_not_blank(l: Seq<char>, i: int)
    requires
        0 <= i < l.len(),
        !is_ws(l[i]),
    ensures
        trim(l).len() > 0,
{
    lemma_skip_ws_bounds(l, 0);
    let a = skip_ws(l, 0);
    if a > i {
        assert(is_ws(l[i]));
    }
    lemma_back_ws_bounds(l, a, l.len() as int);
    let b = back_ws(l, a, l.len() as int);
    if b <= i {
        assert(is_ws(l[i]));
    }
}

/// A line that reads back as it is from a text where a newline ends it: it
/// holds no newline and does not end in a carriage return.
pub open spec fn plain_line(l: Seq<char>) -> bool {
    &&& forall|i: int| 0 <= i < l.len() ==> l[i] != '\n'
    &&& (l.len() > 0 ==> l.last() != '\r')
}

/// Each line of `ls` with a newline after it, one after another.
pub open spec fn terminated(ls: Seq<Seq<char>>) -> Seq<char>
    decreases ls.len(),
{
    if ls.len() == 0 {
        Seq::<char>::empty()
    } else {
        terminated(ls.drop_last()) + ls.last() + seq!['\n']
    }
}

proof fn lemma_split_terminated(ls: Seq<Seq<char>>, e: Seq<char>)
    requires
        forall|k: int| 0 <= k < ls.len() ==> plain_line(#[trigger] ls[k]),
        forall|i: int| 0 <= i < e.len() ==> e[i] != '\n',
    ensures
        split_lines(terminated(ls) + e) == ls.push(e),
    decreases ls.len(),
{
    lemma_split_single(e);
    if ls.len() == 0 {
        assert(terminated(ls) + e == e);
        assert(ls.push(e) == seq![e]);
    } else {
        let l0 = ls.drop_last();
        let last = ls.last();
        assert forall|k: int| 0 <= k < l0.len() implies plain_line(#[trigger] l0[k]) by {
            assert(l0[k] == ls[k]);
        }
        assert(plain_line(ls[ls.len() - 1]));
        lemma_split_terminated(l0, last);
        assert(terminated(ls) + e == (terminated(l0) + last) + seq!['\n'] + e);
        lemma_split_concat(terminated(l0) + last, e);
        assert(l0.push(last) == ls);
    }
}

/// The lines of a text made of plain lines, each ended by a newline, are
/// those lines.
pub proof fn lemma_text_lines_terminated(ls: Seq<Seq<char>>)
    requires
        forall|k: int| 0 <= k < ls.len() ==> plain_line(#[trigger] ls[k]),
    ensures
        text_lines(terminated(ls)) == ls,
{
    let e = Seq::<char>::empty();
    lemma_split_terminated(ls, e);
    assert(terminated(ls) + e == terminated(ls));
    let p = split_lines(terminated(ls));
    assert(p == ls.push(e));
    assert forall|i: int| 0 <= i < p.len() - 1 implies strip_cr(p[i]) == p[i] by {
        assert(p[i] == ls[i]);
        assert(plain_line(ls[i]));
    }
    let q = Seq::new(
        p.len(),
        |i: int|
            if i < p.len() - 1 {
                strip_cr(p[i])
            } else {
                p[i]
            },
    );
    assert(q =~= p);
    assert(p.drop_last() == ls);
}

} // verus!
