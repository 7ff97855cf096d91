//! Display columns: measuring text and wrapping it to a width.

use crate::text::{
    chars_of, head, lemma_rfind_from, lemma_texts_push, occurs_at, rfind, rfind_of, tail, texts,
};
use unicode_width::{UnicodeWidthChar, UnicodeWidthStr};
use vstd::prelude::*;

verus! {

/// The columns `UnicodeWidthChar::width` gives a character; none for a control
/// character.
pub uninterp spec fn char_columns(c: char) -> Option<usize>;

/// The columns `UnicodeWidthStr::width` gives a text.
pub uninterp spec fn text_columns(s: Seq<char>) -> usize;

/// Calls `UnicodeWidthChar::width`, whose result is only named.
#[verifier::external_body]
pub(crate) fn char_width(c: char) -> (r: Option<usize>)
    ensures
        r == char_columns(c),
{
    UnicodeWidthChar::width(c)
}

/// Calls `UnicodeWidthStr::width`, whose result is only named.
#[verifier::external_body]
pub(crate) fn text_width(s: &str) -> (r: usize)
    ensures
        r == text_columns(s@),
{
    UnicodeWidthStr::width(s)
}

/// The columns a character takes up; a control character takes none.
pub open spec fn columns(c: char) -> nat {
    match char_columns(c) {
        Some(n) => n as nat,
        None => 0,
    }
}

/// A wrap in progress: the finished lines, the open line, and how many columns
/// the open line is taken to fill.
pub struct Wrap {
    pub lines: Seq<Seq<char>>,
    pub line: Seq<char>,
    pub used: nat,
}

impl Wrap {
    /// Ends the open line: at its last space when there is one past its first
    /// character, dropping that space, and behind its last character otherwise.
    pub open spec fn broken(self) -> Wrap {
        match rfind_of(self.line, seq![' ']) {
            Some(pos) if pos > 0 => Wrap {
                lines: self.lines.push(self.line.take(pos)),
                line: self.line.skip(pos + 1),
                used: text_columns(self.line.skip(pos + 1)) as nat,
            },
            _ => Wrap { lines: self.lines.push(self.line), line: Seq::empty(), used: 0 },
        }
    }

    /// Adds one character, ending the open line first if it has no room left.
    pub open spec fn add_char(self, c: char, width: nat) -> Wrap {
        let w = if self.used + columns(c) > width && self.line.len() > 0 {
            self.broken()
        } else {
            self
        };
        Wrap { lines: w.lines, line: w.line.push(c), used: w.used + columns(c) }
    }
}

/// The wrap after all characters of a text.
pub open spec fn wrap_of(s: Seq<char>, width: nat) -> Wrap
    decreases s.len(),
{
    if s.len() == 0 {
        Wrap { lines: Seq::empty(), line: Seq::empty(), used: 0 }
    } else {
        wrap_of(s.drop_last(), width).add_char(s.last(), width)
    }
}

/// A text wrapped to a width; the empty text is one empty line.
pub open spec fn wrapped(s: Seq<char>, width: nat) -> Seq<Seq<char>> {
    let w = wrap_of(s, width);
    if w.line.len() > 0 || w.lines.len() == 0 {
        w.lines.push(w.line)
    } else {
        w.lines
    }
}

/// Wraps `text` to `width` display columns.
///
/// Breaks on spaces where it can, but falls back to breaking mid run for text
/// that has none, so CJK reasoning wraps instead of overflowing the viewport.
pub fn wrap_text(text: &str, width: usize) -> (r: Vec<String>)
    ensures
        texts(r@) == wrapped(text@, width as nat),
{
    let cs = chars_of(text);
    let mut lines: Vec<String> = Vec::new();
    let mut line = String::new();
    let mut used: u128 = 0;
    let mut i: usize = 0;
    proof {
        reveal_strlit(" ");
        assert(" "@ =~= seq![' ']);
        assert(text@.take(0) =~= Seq::<char>::empty());
        assert(texts(lines@) =~= Seq::<Seq<char>>::empty());
    }
    while i < cs.len()
        invariant
            cs@ == text@,
            i <= cs@.len(),
            " "@ == seq![' '],
            used <= 2 * usize::MAX,
            line@.len() == 0 ==> used <= usize::MAX,
            ({
                let w = wrap_of(text@.take(i as int), width as nat);
                &&& texts(lines@) == w.lines
                &&& line@ == w.line
                &&& used == w.used
            }),
        decreases cs@.len() - i,
    {
        let ch = cs[i];
        let cw: u128 = match char_width(ch) {
            Some(n) => n as u128,
            None => 0,
        };
        let ghost before = wrap_of(text@.take(i as int), width as nat);
        if used + cw > width as u128 && !line.as_str().is_empty() {
            match rfind(line.as_str(), " ") {
                Some(pos) if pos > 0 => {
                    let rest = tail(line.as_str(), pos + 1).to_owned();
                    let done = head(line.as_str(), pos).to_owned();
                    proof {
                        lemma_texts_push(lines@, done);
                    }
                    lines.push(done);
                    line = rest;
                    used = text_width(line.as_str()) as u128;
                },
                _ => {
                    proof {
                        lemma_texts_push(lines@, line);
                    }
                    lines.push(line);
                    line = String::new();
                    used = 0;
                },
            }
            assert(texts(lines@) == before.broken().lines && line@ == before.broken().line && used
                == before.broken().used);
        }
        line.push(ch);
        used = used + cw;
        i += 1;
        proof {
            assert(text@.take(i as int).drop_last() =~= text@.take(i - 1));
            assert(text@.take(i as int).last() == ch);
        }
    }
    assert(text@.take(i as int) =~= text@);
    if !line.as_str().is_empty() || lines.len() == 0 {
        proof {
            lemma_texts_push(lines@, line);
        }
        lines.push(line);
    }
    lines
}

/// The last `n` characters of a text.
pub open spec fn tail_of(s: Seq<char>, n: nat) -> Seq<char> {
    if n < s.len() {
        s.skip(s.len() - n)
    } else {
        s
    }
}

/// The last `n` characters of `text`, never splitting a code point.
pub fn tail_chars(text: &str, n: usize) -> (r: String)
    ensures
        r@ == tail_of(text@, n as nat),
{
    let len: usize = text.unicode_len();
    if n < len {
        tail(text, len - n).to_owned()
    } else {
        text.to_owned()
    }
}

/// Whether a line has no space to break at: none past its first character.
pub open spec fn unbreakable(line: Seq<char>) -> bool {
    forall|k: int| 0 < k < line.len() ==> #[trigger] line[k] != ' '
}

/// Whether `lines`, put together again, are `s`: each break between two lines
/// has dropped one space, or nothing where the line before it has no space to
/// break at.
pub open spec fn rejoins(lines: Seq<Seq<char>>, s: Seq<char>) -> bool
    decreases lines.len(),
{
    if lines.len() == 0 {
        s.len() == 0
    } else {
        let last = lines.last();
        let n = s.len() - last.len();
        &&& n >= 0
        &&& s.skip(n) == last
        &&& if lines.len() == 1 {
            n == 0
        } else {
            ||| unbreakable(lines[lines.len() - 2]) && rejoins(lines.drop_last(), s.take(n))
            ||| n > 0 && s[n - 1] == ' ' && rejoins(lines.drop_last(), s.take(n - 1))
        }
    }
}

proof fn lemma_wrap_rejoins(s: Seq<char>, width: nat)
    ensures
        ({
            let w = wrap_of(s, width);
            rejoins(w.lines.push(w.line), s)
        }),
        s.len() > 0 ==> wrap_of(s, width).line.len() > 0,
        s.len() == 0 ==> wrap_of(s, width).lines.len() == 0,
    decreases s.len(),
{
    let w = wrap_of(s, width);
    if s.len() == 0 {
        assert(w.lines.push(w.line).last() == w.line);
        assert(s.skip(0) =~= w.line);
    } else {
        let p = s.drop_last();
        let c = s.last();
        lemma_wrap_rejoins(p, width);
        let v = wrap_of(p, width);
        let pushed = v.lines.push(v.line);
        let n = p.len() - v.line.len();
        assert(pushed.last() == v.line && pushed.drop_last() =~= v.lines);
        assert(p.skip(n) == v.line);
        let out = w.lines.push(w.line);
        assert(out.last() == w.line && out.drop_last() =~= w.lines);
        if v.used + columns(c) > width && v.line.len() > 0 {
            match rfind_of(v.line, seq![' ']) {
                Some(pos) if pos > 0 => {
                    lemma_rfind_from(v.line, seq![' '], v.line.len() - 1);
                    assert(occurs_at(v.line, seq![' '], pos));
                    assert(v.line.subrange(pos, pos + 1)[0] == ' ');
                    let m = n + pos;
                    // The new open line is what follows the dropped space.
                    assert(w.line =~= s.skip(m + 1));
                    assert(s[m] == v.line[pos]);
                    let mid = v.lines.push(v.line.take(pos));
                    assert(w.lines == mid);
                    assert(mid.last() == v.line.take(pos) && mid.drop_last() =~= v.lines);
                    if v.lines.len() > 0 {
                        assert(mid[mid.len() - 2] == v.lines.last());
                        assert(pushed[pushed.len() - 2] == v.lines.last());
                    }
                    let t = s.take(m);
                    assert(t.skip(n) =~= v.line.take(pos));
                    assert(t.take(n) =~= p.take(n));
                    if n > 0 {
                        assert(t.take(n - 1) =~= p.take(n - 1));
                        assert(t[n - 1] == p[n - 1]);
                    }
                    assert(rejoins(mid, t));
                    assert(s.len() - w.line.len() == m + 1);
                    assert(s.take(m + 1 - 1) == t);
                },
                _ => {
                    lemma_rfind_from(v.line, seq![' '], v.line.len() - 1);
                    assert(unbreakable(v.line)) by {
                        assert forall|k: int| 0 < k < v.line.len() implies #[trigger] v.line[k]
                            != ' ' by {
                            if v.line[k] == ' ' {
                                assert(v.line.subrange(k, k + 1) =~= seq![' ']);
                                assert(occurs_at(v.line, seq![' '], k));
                            }
                        }
                    }
                    assert(w.line =~= s.skip(p.len() as int));
                    assert(s.take(p.len() as int) =~= p);
                    assert(w.lines == pushed);
                    assert(out[out.len() - 2] == v.line);
                },
            }
        } else {
            if v.lines.len() > 0 {
                assert(out[out.len() - 2] == v.lines.last());
                assert(pushed[pushed.len() - 2] == v.lines.last());
            }
            assert(w.line =~= s.skip(n));
            assert(s.take(n) =~= p.take(n));
            if n > 0 {
                assert(s.take(n - 1) =~= p.take(n - 1));
            }
        }
    }
}

/// Wrapping neither drops nor duplicates anything but the single space that a
/// line is broken at, and breaks at a space wherever there is one past the first
/// character of the line.
pub proof fn law_wrapping_keeps_the_text(s: Seq<char>, width: nat)
    ensures
        rejoins(wrapped(s, width), s),
{
    lemma_wrap_rejoins(s, width);
}

proof fn lemma_rejoin_without_spaces(lines: Seq<Seq<char>>, s: Seq<char>)
    requires
        rejoins(lines, s),
        !s.contains(' '),
    ensures
        lines.flatten_alt() == s,
    decreases lines.len(),
{
    if lines.len() == 0 {
        assert(s =~= Seq::<char>::empty());
    } else {
        let last = lines.last();
        let n = s.len() - last.len();
        if n > 0 {
            assert(s[n - 1] != ' ');
        }
        if lines.len() == 1 {
            assert(s =~= last);
            assert(lines.drop_last() =~= Seq::<Seq<char>>::empty());
            assert(lines.drop_last().flatten_alt() =~= Seq::<char>::empty());
            assert(lines.flatten_alt() =~= s);
        } else {
            assert(!s.take(n).contains(' ')) by {
                assert forall|i: int| 0 <= i < n implies s.take(n)[i] != ' ' by {
                    assert(s[i] != ' ');
                }
            }
            lemma_rejoin_without_spaces(lines.drop_last(), s.take(n));
            assert(s =~= s.take(n) + s.skip(n));
        }
    }
}

/// A text without spaces is the concatenation of its wrapped lines.
pub proof fn law_spaceless_text_is_its_lines(s: Seq<char>, width: nat)
    requires
        !s.contains(' '),
    ensures
        wrapped(s, width).flatten() == s,
{
    law_wrapping_keeps_the_text(s, width);
    lemma_rejoin_without_spaces(wrapped(s, width), s);
    wrapped(s, width).lemma_flatten_and_flatten_alt_are_equivalent();
}

/// The sum of the columns of the characters of a text.
pub open spec fn columns_sum(s: Seq<char>) -> nat
    decreases s.len(),
{
    if s.len() == 0 {
        0
    } else {
        columns_sum(s.drop_last()) + columns(s.last())
    }
}

proof fn lemma_columns_sum_split(s: Seq<char>, i: int)
    requires
        0 <= i <= s.len(),
    ensures
        columns_sum(s) == columns_sum(s.take(i)) + columns_sum(s.skip(i)),
    decreases s.len(),
{
    if i == s.len() {
        assert(s.take(i) =~= s);
        assert(s.skip(i) =~= Seq::<char>::empty());
    } else {
        lemma_columns_sum_split(s.drop_last(), i);
        assert(s.drop_last().take(i) =~= s.take(i));
        assert(s.drop_last().skip(i) =~= s.skip(i).drop_last());
        assert(s.skip(i).last() == s.last());
    }
}

/// Whether every stretch of a text is as wide as its characters together, and
/// each of them takes one or two columns.
pub open spec fn evenly_wide(s: Seq<char>) -> bool {
    &&& forall|i: int| 0 <= i < s.len() ==> 1 <= columns(#[trigger] s[i]) <= 2
    &&& forall|i: int, j: int|
        0 <= i <= j <= s.len() ==> text_columns(#[trigger] s.subrange(i, j)) == columns_sum(
            s.subrange(i, j),
        )
}

/// Whether `l` is a stretch of `s` that fits into `width`.
pub open spec fn fits(s: Seq<char>, l: Seq<char>, width: nat) -> bool {
    &&& exists|i: int, j: int| 0 <= i <= j <= s.len() && l == #[trigger] s.subrange(i, j)
    &&& columns_sum(l) <= width
}

proof fn lemma_wrap_fits(s: Seq<char>, n: int, width: nat)
    requires
        evenly_wide(s),
        width >= 2,
        0 <= n <= s.len(),
    ensures
        ({
            let w = wrap_of(s.take(n), width);
            &&& forall|k: int| 0 <= k < w.lines.len() ==> fits(s, #[trigger] w.lines[k], width)
            &&& w.line.len() <= n
            &&& w.line == s.subrange(n - w.line.len(), n)
            &&& w.used == columns_sum(w.line)
            &&& w.used <= width
        }),
    decreases n,
{
    let w = wrap_of(s.take(n), width);
    if n == 0 {
        assert(s.take(0) =~= Seq::<char>::empty());
        assert(w.line =~= s.subrange(0, 0));
    } else {
        lemma_wrap_fits(s, n - 1, width);
        assert(s.take(n).drop_last() =~= s.take(n - 1));
        let v = wrap_of(s.take(n - 1), width);
        let c = s[n - 1];
        let a = n - 1 - v.line.len();
        assert(s.take(n).last() == c);
        assert(w == v.add_char(c, width));
        if v.used + columns(c) > width && v.line.len() > 0 {
            let b = v.broken();
            match rfind_of(v.line, seq![' ']) {
                Some(pos) if pos > 0 => {
                    lemma_rfind_from(v.line, seq![' '], v.line.len() - 1);
                    assert(occurs_at(v.line, seq![' '], pos));
                    lemma_columns_sum_split(v.line, pos);
                    lemma_columns_sum_split(v.line, pos + 1);
                    assert(v.line.take(pos) =~= s.subrange(a, a + pos));
                    assert(fits(s, v.line.take(pos), width));
                    assert(v.line.skip(pos + 1) =~= s.subrange(a + pos + 1, n - 1));
                    // The part in front of the new line is at least two columns wide.
                    assert(v.line.take(pos + 1).drop_last() =~= v.line.take(pos));
                    assert(v.line.take(pos).len() > 0);
                    assert(v.line.take(pos).last() == s[a + pos - 1]);
                    assert(v.line.take(pos + 1).last() == s[a + pos]);
                    assert(columns_sum(v.line.take(pos)) >= 1);
                    assert(columns_sum(v.line.take(pos + 1)) >= 2);
                },
                _ => {
                    assert(fits(s, v.line, width));
                    assert(b.line =~= s.subrange(n - 1, n - 1));
                },
            }
            assert forall|k: int| 0 <= k < b.lines.len() implies fits(
                s,
                #[trigger] b.lines[k],
                width,
            ) by {
                if k < v.lines.len() {
                    assert(b.lines[k] == v.lines[k]);
                }
            }
            assert(w.line =~= s.subrange(n - w.line.len(), n));
            assert(w.line.drop_last() =~= b.line);
        } else {
            assert(w.line =~= s.subrange(n - w.line.len(), n));
            assert(w.line.drop_last() =~= v.line);
        }
    }
}

/// Every line fits into the width, for a text whose characters are one or two
/// columns wide and nowhere melt into a wider or narrower sign.
pub proof fn law_wrapped_lines_fit(s: Seq<char>, width: nat)
    requires
        evenly_wide(s),
        width >= 2,
    ensures
        forall|k: int|
            0 <= k < wrapped(s, width).len() ==> text_columns(#[trigger] wrapped(s, width)[k])
                <= width,
{
    let n = s.len() as int;
    assert(s.take(n) =~= s);
    lemma_wrap_fits(s, n, width);
    let w = wrap_of(s, width);
    assert(fits(s, w.line, width));
    assert forall|k: int| 0 <= k < wrapped(s, width).len() implies text_columns(
        #[trigger] wrapped(s, width)[k],
    ) <= width by {
        let l = wrapped(s, width)[k];
        assert(fits(s, l, width)) by {
            if k < w.lines.len() {
                assert(l == w.lines[k]);
            } else {
                assert(l == w.line);
            }
        }
        let (i, j) = choose|i: int, j: int|
            0 <= i <= j <= s.len() && l == #[trigger] s.subrange(i, j);
        assert(text_columns(s.subrange(i, j)) == columns_sum(s.subrange(i, j)));
    }
}

/// A text that fits stays on one line: it is only broken for a character that has no
/// room left, so that what fills the width exactly is not broken.
pub proof fn law_a_text_that_fits_is_one_line(s: Seq<char>, width: nat)
    requires
        columns_sum(s) <= width,
    ensures
        wrapped(s, width) == seq![s],
{
    lemma_fitting_wrap(s, width);
    assert(wrapped(s, width) =~= seq![s]);
}

proof fn lemma_fitting_wrap(s: Seq<char>, width: nat)
    requires
        columns_sum(s) <= width,
    ensures
        wrap_of(s, width).lines.len() == 0,
        wrap_of(s, width).line == s,
        wrap_of(s, width).used == columns_sum(s),
    decreases s.len(),
{
    if s.len() > 0 {
        lemma_fitting_wrap(s.drop_last(), width);
        assert(s.drop_last().push(s.last()) =~= s);
    } else {
        assert(wrap_of(s, width).line =~= s);
    }
}

/// A line that is full is ended before the next character: at its last space past
/// the first character, which goes, and what stood behind it moves to the next line;
/// without such a space the whole line is ended.
pub proof fn law_a_full_line_is_ended_at_its_last_space(
    done: Seq<Seq<char>>,
    a: Seq<char>,
    b: Seq<char>,
    used: nat,
    c: char,
    width: nat,
)
    requires
        used + columns(c) > width,
        !b.contains(' '),
    ensures
        a.len() > 0 ==> (Wrap { lines: done, line: a + seq![' '] + b, used }).add_char(c, width)
            == (Wrap {
            lines: done.push(a),
            line: b.push(c),
            used: text_columns(b) as nat + columns(c),
        }),
        b.len() > 0 ==> (Wrap { lines: done, line: b, used }).add_char(c, width) == (Wrap {
            lines: done.push(b),
            line: seq![c],
            used: columns(c),
        }),
{
    let line = a + seq![' '] + b;
    let pos = a.len() as int;
    let pat = seq![' '];
    assert(line.subrange(pos, pos + 1) =~= pat);
    assert(occurs_at(line, pat, pos));
    lemma_rfind_from(line, pat, line.len() - 1);
    if let Some(k) = rfind_of(line, pat) {
        if k > pos {
            assert(line.subrange(k, k + 1)[0] == line[k]);
            assert(line[k] == b[k - pos - 1]);
            assert(b.contains(b[k - pos - 1]));
        }
    }
    assert(rfind_of(line, pat) == Some(pos));
    assert(line.take(pos) =~= a);
    assert(line.skip(pos + 1) =~= b);
    lemma_rfind_from(b, pat, b.len() - 1);
    if let Some(k) = rfind_of(b, pat) {
        assert(b.subrange(k, k + 1)[0] == b[k]);
        assert(b.contains(b[k]));
    }
    assert(Seq::<char>::empty().push(c) =~= seq![c]);
}

/// The last characters of a text are its end, as many of them as were asked for or
/// all there are.
pub proof fn law_the_end_of_a_text_is_kept(a: Seq<char>, b: Seq<char>, n: nat)
    ensures
        n == b.len() ==> tail_of(a + b, n) == b,
        n >= b.len() ==> tail_of(b, n) == b,
{
    if n == b.len() {
        assert(tail_of(a + b, n) =~= b);
    }
}

} // verus!
