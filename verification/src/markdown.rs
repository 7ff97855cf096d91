//! Text for the terminal: the model's Markdown and its reasons, indented and
//! wrapped, one `String` for each line to print.

use crate::reply::{strip_fence, unfenced};
use crate::style::{bold_style, fixed_style, paint_bold, paint_fixed, painted, TextStyle};
use crate::text::{
    blanks, byte_len, bytes_in, contains, contains_of, find, find_of, head, is_digit, join_strs,
    joined, lemma_find_from, lemma_first_char, lemma_rfind_from,
    lemma_texts_push, lemma_trim_blank_end, lemma_trimmed, lemma_trimmed_stays, lines, lines_of,
    occurs_at, pieces, pieces_of, rfind, rfind_of, spaces, starts_with, starts_with_of, strs, tail,
    texts, trim, trim_end_matches, trim_end_of, trim_start_matches, trim_start_of, trimmed,
    white_space, words, words_of, Class,
};
use crate::width::{wrap_text, wrapped};
use vstd::prelude::*;

verus! {

/// What opens and closes a span: of bold text, or of code.
pub open spec fn mark(bold: bool) -> Seq<char> {
    if bold {
        "**"@
    } else {
        "`"@
    }
}

/// How a span is shown.
pub open spec fn span_style(bold: bool) -> TextStyle {
    if bold {
        bold_style()
    } else {
        fixed_style(244)
    }
}

/// The mark that comes first in a text, and whether it is one of bold text.
pub open spec fn first_mark(s: Seq<char>) -> Option<(int, bool)> {
    match (find_of(s, mark(true)), find_of(s, mark(false))) {
        (Some(i), Some(j)) => if i < j {
            Some((i, true))
        } else {
            Some((j, false))
        },
        (Some(i), None) => Some((i, true)),
        (None, Some(j)) => Some((j, false)),
        (None, None) => None,
    }
}

/// A line with its `**bold**` and `` `code` `` spans shown as such, from the
/// first mark on. A mark without its counterpart stays.
pub open spec fn inlined(s: Seq<char>) -> Seq<char>
    decreases s.len(),
{
    match first_mark(s) {
        Some((i, bold)) => {
            let m = mark(bold);
            let t = s.skip(i + m.len());
            if 0 <= i && 0 < m.len() && i + m.len() <= s.len() {
                match find_of(t, m) {
                    Some(j) if 0 <= j && j + m.len() <= t.len() => s.take(i) + painted(
                        span_style(bold),
                        t.take(j),
                    ) + inlined(t.skip(j + m.len())),
                    _ => s.take(i) + m + inlined(t),
                }
            } else {
                s
            }
        },
        None => s,
    }
}

fn find_mark(s: &str) -> (r: Option<(usize, bool)>)
    ensures
        match r {
            Some((i, bold)) => first_mark(s@) == Some((i as int, bold)) && i + mark(bold).len()
                <= s@.len() <= usize::MAX,
            None => first_mark(s@) is None,
        },
{
    match (find(s, "**"), find(s, "`")) {
        (Some(i), Some(j)) => if i < j {
            Some((i, true))
        } else {
            Some((j, false))
        },
        (Some(i), None) => Some((i, true)),
        (None, Some(j)) => Some((j, false)),
        (None, None) => None,
    }
}

/// Applies inline Markdown: `**bold**` and `` `code` `` spans. The line is
/// already wrapped, so the ANSI codes do not affect the display width.
pub fn inline_markdown(line: &str) -> (r: String)
    ensures
        r@ == inlined(line@),
{
    let mut out = String::new();
    let mut rest = line;
    proof {
        reveal_strlit("**");
        reveal_strlit("`");
    }
    assert(out@ + inlined(line@) =~= inlined(line@));
    loop
        invariant
            "**"@.len() == 2,
            "`"@.len() == 1,
            inlined(line@) == out@ + inlined(rest@),
        decreases rest@.len(),
    {
        let ghost before = out@;
        let ghost s = rest@;
        match find_mark(rest) {
            Some((i, bold)) => {
                let m = if bold {
                    "**"
                } else {
                    "`"
                };
                let wide: usize = m.unicode_len();
                let behind = tail(rest, i + wide);
                out.append(head(rest, i));
                match find(behind, m) {
                    Some(j) => {
                        let inside = head(behind, j);
                        let span = if bold {
                            paint_bold(inside)
                        } else {
                            paint_fixed(244, inside)
                        };
                        out.append(span.as_str());
                        rest = tail(behind, j + wide);
                        assert(out@ + inlined(rest@) =~= before + (s.take(i as int) + span@
                            + inlined(rest@)));
                    },
                    None => {
                        out.append(m);
                        rest = behind;
                        assert(out@ + inlined(rest@) =~= before + (s.take(i as int) + m@ + inlined(
                            rest@,
                        )));
                    },
                }
            },
            None => {
                out.append(rest);
                return out;
            },
        }
    }
}

/// A line without a mark is shown as it is.
pub proof fn law_unmarked_text_is_left_alone(s: Seq<char>)
    requires
        !s.contains('`'),
        forall|i: int|
            0 <= i < s.len() - 1 ==> !(#[trigger] s[i] == '*' && s[i + 1] == '*'),
    ensures
        inlined(s) == s,
{
    reveal_strlit("**");
    reveal_strlit("`");
    lemma_find_from(s, "**"@, 0);
    lemma_find_from(s, "`"@, 0);
    if let Some(i) = find_of(s, "**"@) {
        assert(s.subrange(i, i + 2)[0] == '*');
        assert(s.subrange(i, i + 2)[1] == '*');
        assert(s[i] == '*' && s[i + 1] == '*');
    }
    if let Some(i) = find_of(s, "`"@) {
        assert(s.subrange(i, i + 1)[0] == '`');
        assert(s[i] == '`');
    }
}

/// Where two stars are found, if no star stands before them.
proof fn lemma_stars_at(s: Seq<char>, pos: int)
    requires
        0 <= pos < s.len() - 1,
        s[pos] == '*',
        s[pos + 1] == '*',
        forall|m: int| 0 <= m < pos ==> #[trigger] s[m] != '*',
    ensures
        find_of(s, "**"@) == Some(pos),
{
    reveal_strlit("**");
    assert(s.subrange(pos, pos + 2) =~= "**"@);
    assert(occurs_at(s, "**"@, pos));
    lemma_find_from(s, "**"@, 0);
    if let Some(k) = find_of(s, "**"@) {
        assert(s.subrange(k, k + 2)[0] == s[k]);
    }
}

/// Where two stars come first.
proof fn lemma_first_stars(a: Seq<char>, rest: Seq<char>)
    requires
        !a.contains('*'),
    ensures
        find_of(a + "**"@ + rest, "**"@) == Some(a.len() as int),
{
    reveal_strlit("**");
    let s = a + "**"@ + rest;
    assert forall|m: int| 0 <= m < a.len() implies #[trigger] s[m] != '*' by {
        assert(a.contains(a[m]));
    }
    lemma_stars_at(s, a.len() as int);
}

/// Where a backtick comes first.
proof fn lemma_first_tick(a: Seq<char>, rest: Seq<char>)
    requires
        !a.contains('`'),
    ensures
        find_of(a + "`"@ + rest, "`"@) == Some(a.len() as int),
{
    reveal_strlit("`");
    assert("`"@ =~= seq!['`']);
    let s = a + "`"@ + rest;
    assert forall|m: int| 0 <= m < a.len() implies #[trigger] s[m] != '`' by {
        assert(a.contains(a[m]));
    }
    lemma_first_char(s, '`', a.len() as int);
}

/// A code span is shown as one, whatever follows, bold spans included.
pub proof fn law_code_spans_are_applied(a: Seq<char>, code: Seq<char>, rest: Seq<char>)
    requires
        !a.contains('`'),
        !a.contains('*'),
        !code.contains('`'),
    ensures
        inlined(a + "`"@ + (code + "`"@ + rest)) == a + painted(fixed_style(244), code) + inlined(
            rest,
        ),
{
    let t = code + "`"@ + rest;
    let s = a + "`"@ + t;
    reveal_strlit("`");
    reveal_strlit("**");
    lemma_first_tick(a, t);
    lemma_first_tick(code, rest);
    lemma_find_from(s, "**"@, 0);
    if let Some(k) = find_of(s, "**"@) {
        assert(s.subrange(k, k + 2)[0] == s[k]);
        if k < a.len() {
            assert(a.contains(a[k]));
        }
        assert(s[a.len() as int] == '`');
        assert(k > a.len());
    }
    assert(first_mark(s) == Some((a.len() as int, false)));
    assert(s.skip(a.len() as int + 1) =~= t);
    assert(s.take(a.len() as int) =~= a);
    assert(t.take(code.len() as int) =~= code);
    assert(t.skip(code.len() as int + 1) =~= rest);
}

/// A bold span is shown as one, whatever follows, code spans included.
pub proof fn law_bold_spans_are_applied(a: Seq<char>, bold: Seq<char>, rest: Seq<char>)
    requires
        !a.contains('`'),
        !a.contains('*'),
        !bold.contains('*'),
    ensures
        inlined(a + "**"@ + (bold + "**"@ + rest)) == a + painted(bold_style(), bold) + inlined(
            rest,
        ),
{
    let t = bold + "**"@ + rest;
    let s = a + "**"@ + t;
    reveal_strlit("`");
    reveal_strlit("**");
    lemma_first_stars(a, t);
    lemma_first_stars(bold, rest);
    lemma_find_from(s, "`"@, 0);
    if let Some(k) = find_of(s, "`"@) {
        assert(s.subrange(k, k + 1)[0] == s[k]);
        if k < a.len() {
            assert(a.contains(a[k]));
        }
        assert(s[a.len() as int] == '*');
        assert(k > a.len());
    }
    assert(first_mark(s) == Some((a.len() as int, true)));
    assert(s.skip(a.len() as int + 2) =~= t);
    assert(s.take(a.len() as int) =~= a);
    assert(t.take(bold.len() as int) =~= bold);
    assert(t.skip(bold.len() as int + 2) =~= rest);
}

/// The columns left for text between the indent and the edge of the terminal,
/// but no fewer than twenty.
pub open spec fn body_width(cols: Option<usize>) -> nat {
    let all: int = match cols {
        Some(n) => n as int,
        None => 80,
    };
    if all - 4 > 20 {
        (all - 4) as nat
    } else {
        20
    }
}

/// The columns left for text between the indent and the edge of the terminal.
pub fn text_columns_left(cols: Option<usize>) -> (r: usize)
    ensures
        r == body_width(cols),
{
    let all: usize = match cols {
        Some(n) => n,
        None => 80,
    };
    if all > 24 {
        all - 4
    } else {
        20
    }
}

/// The indent of every line.
pub open spec fn indent() -> Seq<char> {
    "    "@
}

/// Lines of code or of a reason: each wrapped, indented and in a shade of gray.
pub open spec fn shaded(list: Seq<Seq<char>>, shade: u8, width: nat) -> Seq<Seq<char>>
    decreases list.len(),
{
    if list.len() == 0 {
        Seq::empty()
    } else {
        let w = wrapped(list.last(), width);
        shaded(list.drop_last(), shade, width) + Seq::new(
            w.len(),
            |i: int| indent() + painted(fixed_style(shade), w[i]),
        )
    }
}

/// The marker of a list line, its text included up to the first space, and the
/// rest of the line.
pub open spec fn list_parts(line: Seq<char>) -> (Seq<char>, Seq<char>) {
    let t = trim_start_of(line, Class::White);
    match find_of(t, " "@) {
        Some(pos) => (t.take(pos + 1), t.skip(pos + 1)),
        None => (line, Seq::empty()),
    }
}

/// A line of a list: the marker, and what does not fit beside it hung under it.
pub open spec fn list_item(line: Seq<char>, width: nat) -> Seq<Seq<char>> {
    let line = trim_end_of(line, Class::White);
    if trimmed(line).len() == 0 {
        seq![Seq::empty()]
    } else {
        let (marker, rest) = list_parts(line);
        let wide = byte_len(marker);
        let left: nat = if width > wide {
            (width - wide) as nat
        } else {
            0
        };
        let w = wrapped(rest, left);
        Seq::new(
            w.len(),
            |i: int|
                indent() + (if i == 0 {
                    marker
                } else {
                    blanks(wide)
                }) + inlined(w[i]),
        )
    }
}

/// The lines of a list.
pub open spec fn list_items(list: Seq<Seq<char>>, width: nat) -> Seq<Seq<char>>
    decreases list.len(),
{
    if list.len() == 0 {
        Seq::empty()
    } else {
        list_items(list.drop_last(), width) + list_item(list.last(), width)
    }
}

/// The lines of a paragraph: its words, wrapped anew.
pub open spec fn paragraph(block: Seq<char>, width: nat) -> Seq<Seq<char>> {
    let w = wrapped(joined(words_of(block, Class::White), " "@), width);
    Seq::new(w.len(), |i: int| indent() + inlined(w[i]))
}

/// The first line of a block, without leading white space.
pub open spec fn first_line(block: Seq<char>) -> Seq<char> {
    let list = lines_of(block);
    if list.len() == 0 {
        Seq::empty()
    } else {
        trim_start_of(list[0], Class::White)
    }
}

/// Whether a first line opens a list.
pub open spec fn opens_list(first: Seq<char>) -> bool {
    ||| starts_with_of(first, "- "@)
    ||| starts_with_of(first, "* "@)
    ||| starts_with_of(first, "+ "@)
    ||| first.len() > 0 && is_digit(first[0])
}

/// What stands below the first line of a text.
pub open spec fn below(s: Seq<char>) -> Seq<char> {
    match find_of(s, "\n"@) {
        Some(pos) => trimmed(s.skip(pos + 1)),
        None => Seq::empty(),
    }
}

/// What stands behind the closing fence of a block of code.
pub open spec fn behind_fence(s: Seq<char>) -> Seq<char> {
    match find_of(s, "\n"@) {
        Some(pos) => {
            let t = s.skip(pos + 1);
            match rfind_of(t, "```"@) {
                Some(end) => trimmed(t.skip(end + 3)),
                None => Seq::empty(),
            }
        },
        None => Seq::empty(),
    }
}

/// What is left of a block is shorter than it.
pub proof fn lemma_below_is_shorter(s: Seq<char>)
    requires
        s.len() > 0,
    ensures
        below(s).len() < s.len(),
        behind_fence(s).len() < s.len(),
{
    reveal_strlit("\n");
    reveal_strlit("```");
    lemma_find_from(s, "\n"@, 0);
    if let Some(pos) = find_of(s, "\n"@) {
        let t = s.skip(pos + 1);
        lemma_trimmed(t);
        lemma_rfind_from(t, "```"@, t.len() - 3);
        if let Some(end) = rfind_of(t, "```"@) {
            lemma_trimmed(t.skip(end + 3));
        }
    }
}

/// The line of a heading and the empty one behind it; none for a heading that
/// says nothing.
pub open spec fn heading_lines(first: Seq<char>) -> Seq<Seq<char>> {
    let heading = trimmed(trim_start_of(first, Class::Hash));
    if heading.len() == 0 {
        Seq::empty()
    } else {
        seq![indent() + painted(bold_style(), "## "@ + heading), Seq::empty()]
    }
}

/// The lines of one block: fenced code, a heading, a list or a paragraph, and an
/// empty line behind it. Text right below a heading or behind a fence is a block
/// of its own.
pub open spec fn block_lines(block: Seq<char>, width: nat) -> Seq<Seq<char>>
    decreases block.len(),
{
    let first = first_line(block);
    if block.len() == 0 {
        Seq::empty()
    } else {
        proof {
            lemma_below_is_shorter(block);
        }
        if starts_with_of(block, "```"@) {
            shaded(lines_of(unfenced(block)), 244, width).push(Seq::empty()) + block_lines(
                behind_fence(block),
                width,
            )
        } else if starts_with_of(first, "#"@) {
            heading_lines(first) + block_lines(below(block), width)
        } else if opens_list(first) {
            list_items(lines_of(block), width).push(Seq::empty())
        } else {
            paragraph(block, width).push(Seq::empty())
        }
    }
}

/// Whether a block opens a fence that it does not close.
pub open spec fn open_fence(block: Seq<char>) -> bool {
    starts_with_of(block, "```"@) && !contains_of(block.skip(3), "```"@)
}

/// Whether one of several stretches of text has a fence in it.
pub open spec fn has_fence(list: Seq<Seq<char>>) -> bool {
    exists|i: int| 0 <= i < list.len() && contains_of(#[trigger] list[i], "```"@)
}

/// The blocks of a text that blank lines have parted: a block and those behind
/// it. Blank lines inside fenced code part nothing.
pub open spec fn blocks_from(block: Seq<char>, rest: Seq<Seq<char>>) -> Seq<Seq<char>>
    decreases rest.len(),
{
    if rest.len() == 0 {
        seq![block]
    } else if open_fence(trimmed(block)) && has_fence(rest) {
        blocks_from(block + "\n\n"@ + rest[0], rest.skip(1))
    } else {
        seq![block] + blocks_from(rest[0], rest.skip(1))
    }
}

/// The blocks of a text.
pub open spec fn blocks_of(text: Seq<char>) -> Seq<Seq<char>> {
    let list = pieces_of(text, "\n\n"@);
    blocks_from(list[0], list.skip(1))
}

/// The lines of several blocks.
pub open spec fn blocks_lines(list: Seq<Seq<char>>, width: nat) -> Seq<Seq<char>>
    decreases list.len(),
{
    if list.len() == 0 {
        Seq::empty()
    } else {
        blocks_lines(list.drop_last(), width) + block_lines(trimmed(list.last()), width)
    }
}

/// The lines that show a body of text, block by block.
pub open spec fn body_of(cols: Option<usize>, text: Seq<char>) -> Seq<Seq<char>> {
    blocks_lines(blocks_of(trimmed(text)), body_width(cols))
}

/// The lines that show a reason, in gray.
pub open spec fn reason_of(cols: Option<usize>, text: Seq<char>) -> Seq<Seq<char>> {
    reasons(lines_of(trimmed(text)), body_width(cols))
}

/// The lines of a reason, each of its own wrapped, a blank one kept.
pub open spec fn reasons(list: Seq<Seq<char>>, width: nat) -> Seq<Seq<char>>
    decreases list.len(),
{
    if list.len() == 0 {
        Seq::empty()
    } else {
        let line = trimmed(list.last());
        reasons(list.drop_last(), width) + (if line.len() == 0 {
            seq![Seq::empty()]
        } else {
            shaded(seq![line], 246, width)
        })
    }
}

proof fn lemma_texts_add(a: Seq<String>, b: Seq<String>)
    ensures
        texts(a + b) == texts(a) + texts(b),
{
    assert(texts(a + b) =~= texts(a) + texts(b));
}

fn extend(out: &mut Vec<String>, more: Vec<String>)
    ensures
        texts(final(out)@) == texts(old(out)@) + texts(more@),
{
    let mut more = more;
    proof {
        lemma_texts_add(out@, more@);
    }
    out.append(&mut more);
}

fn push_blank(out: &mut Vec<String>)
    ensures
        texts(final(out)@) == texts(old(out)@).push(Seq::empty()),
{
    let line = String::new();
    proof {
        lemma_texts_push(out@, line);
        assert(line@ =~= Seq::empty());
    }
    out.push(line);
}

fn shaded_lines(line: &str, shade: u8, width: usize) -> (r: Vec<String>)
    ensures
        texts(r@) == shaded(seq![line@], shade, width as nat),
{
    let rows = wrap_text(line, width);
    let ghost w = texts(rows@);
    let mut out: Vec<String> = Vec::new();
    let mut i: usize = 0;
    while i < rows.len()
        invariant
            i <= rows@.len(),
            w == texts(rows@),
            out@.len() == i,
            forall|k: int|
                0 <= k < i ==> (#[trigger] out@[k])@ == indent() + painted(
                    fixed_style(shade),
                    w[k],
                ),
        decreases rows@.len() - i,
    {
        let mut row = "    ".to_owned();
        row.append(paint_fixed(shade, rows[i].as_str()).as_str());
        out.push(row);
        i += 1;
    }
    proof {
        let one = seq![line@];
        assert(one.drop_last() =~= Seq::<Seq<char>>::empty());
        assert(shaded(one.drop_last(), shade, width as nat) =~= Seq::<Seq<char>>::empty());
        assert(texts(out@) =~= shaded(one, shade, width as nat));
    }
    out
}

fn code_lines(code: &str, width: usize) -> (r: Vec<String>)
    ensures
        texts(r@) == shaded(lines_of(code@), 244, width as nat),
{
    let list = lines(code);
    let ghost all = strs(list@);
    let mut out: Vec<String> = Vec::new();
    let mut i: usize = 0;
    proof {
        assert(all.take(0) =~= Seq::<Seq<char>>::empty());
        assert(texts(out@) =~= Seq::<Seq<char>>::empty());
    }
    while i < list.len()
        invariant
            i <= list@.len(),
            all == strs(list@),
            texts(out@) == shaded(all.take(i as int), 244, width as nat),
        decreases list@.len() - i,
    {
        extend(&mut out, shaded_lines(list[i], 244, width));
        proof {
            let one = seq![list@[i as int]@];
            assert(all.take(i + 1).drop_last() =~= all.take(i as int));
            assert(one.drop_last() =~= Seq::<Seq<char>>::empty());
            assert(shaded(one.drop_last(), 244, width as nat) =~= Seq::<Seq<char>>::empty());
            assert(texts(out@) =~= shaded(all.take(i + 1), 244, width as nat));
        }
        i += 1;
    }
    assert(all.take(i as int) =~= all);
    out
}

fn item_lines(source: &str, width: usize) -> (r: Vec<String>)
    ensures
        texts(r@) == list_item(source@, width as nat),
{
    let mut out: Vec<String> = Vec::new();
    assert(texts(out@) =~= Seq::<Seq<char>>::empty());
    let line = trim_end_matches(source, Class::White);
    if trim(line).is_empty() {
        push_blank(&mut out);
        assert(texts(out@) =~= seq![Seq::empty()]);
        return out;
    }
    proof {
        reveal_strlit(" ");
    }
    let trimmed_line = trim_start_matches(line, Class::White);
    let (marker, rest) = match find(trimmed_line, " ") {
        Some(pos) => (head(trimmed_line, pos + 1), tail(trimmed_line, pos + 1)),
        None => (line, ""),
    };
    proof {
        reveal_strlit("");
        assert((marker@, rest@) == list_parts(line@));
    }
    let wide: usize = bytes_in(marker);
    let left: usize = if width > wide {
        width - wide
    } else {
        0
    };
    let rows = wrap_text(rest, left);
    let ghost w = texts(rows@);
    let mut i: usize = 0;
    while i < rows.len()
        invariant
            i <= rows@.len(),
            w == texts(rows@),
            wide == byte_len(marker@),
            out@.len() == i,
            forall|k: int|
                0 <= k < i ==> (#[trigger] out@[k])@ == indent() + (if k == 0 {
                    marker@
                } else {
                    blanks(wide as nat)
                }) + inlined(w[k]),
        decreases rows@.len() - i,
    {
        let mut row = "    ".to_owned();
        if i == 0 {
            row.append(marker);
        } else {
            row.append(spaces(wide).as_str());
        }
        row.append(inline_markdown(rows[i].as_str()).as_str());
        out.push(row);
        i += 1;
    }
    assert(texts(out@) =~= list_item(source@, width as nat));
    out
}

/// The lines that show a list.
fn list_lines(block: &str, width: usize) -> (r: Vec<String>)
    ensures
        texts(r@) == list_items(lines_of(block@), width as nat),
{
    let list = lines(block);
    let ghost all = strs(list@);
    let mut out: Vec<String> = Vec::new();
    let mut i: usize = 0;
    proof {
        assert(all.take(0) =~= Seq::<Seq<char>>::empty());
        assert(texts(out@) =~= Seq::<Seq<char>>::empty());
    }
    while i < list.len()
        invariant
            i <= list@.len(),
            all == strs(list@),
            texts(out@) == list_items(all.take(i as int), width as nat),
        decreases list@.len() - i,
    {
        extend(&mut out, item_lines(list[i], width));
        proof {
            assert(all.take(i + 1).drop_last() =~= all.take(i as int));
            assert(all.take(i + 1).last() == list@[i as int]@);
        }
        i += 1;
    }
    assert(all.take(i as int) =~= all);
    out
}

fn paragraph_lines(block: &str, width: usize) -> (r: Vec<String>)
    ensures
        texts(r@) == paragraph(block@, width as nat),
{
    let para = join_strs(words(block, Class::White).as_slice(), " ");
    let rows = wrap_text(para.as_str(), width);
    let ghost w = texts(rows@);
    let mut out: Vec<String> = Vec::new();
    let mut i: usize = 0;
    while i < rows.len()
        invariant
            i <= rows@.len(),
            w == texts(rows@),
            out@.len() == i,
            forall|k: int| 0 <= k < i ==> (#[trigger] out@[k])@ == indent() + inlined(w[k]),
        decreases rows@.len() - i,
    {
        let mut row = "    ".to_owned();
        row.append(inline_markdown(rows[i].as_str()).as_str());
        out.push(row);
        i += 1;
    }
    assert(texts(out@) =~= paragraph(block@, width as nat));
    out
}

fn starts_with_digit(s: &str) -> (r: bool)
    ensures
        r == (s@.len() > 0 && is_digit(s@[0])),
{
    if s.is_empty() {
        return false;
    }
    let c = s.get_char(0);
    '0' <= c && c <= '9'
}

fn text_below(s: &str) -> (r: &str)
    ensures
        r@ == below(s@),
{
    proof {
        reveal_strlit("\n");
        reveal_strlit("");
    }
    match find(s, "\n") {
        Some(pos) => trim(tail(s, pos + 1)),
        None => "",
    }
}

fn text_behind_fence(s: &str) -> (r: &str)
    ensures
        r@ == behind_fence(s@),
{
    proof {
        reveal_strlit("\n");
        reveal_strlit("```");
        reveal_strlit("");
    }
    match find(s, "\n") {
        Some(pos) => {
            let t = tail(s, pos + 1);
            match rfind(t, "```") {
                Some(end) => trim(tail(t, end + 3)),
                None => "",
            }
        },
        None => "",
    }
}

fn lines_of_heading(first: &str) -> (r: Vec<String>)
    ensures
        texts(r@) == heading_lines(first@),
{
    let mut out: Vec<String> = Vec::new();
    assert(texts(out@) =~= Seq::<Seq<char>>::empty());
    let heading = trim(trim_start_matches(first, Class::Hash));
    if !heading.is_empty() {
        let mut row = "## ".to_owned();
        row.append(heading);
        let mut line = "    ".to_owned();
        line.append(paint_bold(row.as_str()).as_str());
        proof {
            lemma_texts_push(out@, line);
        }
        out.push(line);
        push_blank(&mut out);
    }
    assert(texts(out@) =~= heading_lines(first@));
    out
}

fn lines_of_block(block: &str, width: usize) -> (r: Vec<String>)
    ensures
        texts(r@) == block_lines(block@, width as nat),
    decreases block@.len(),
{
    if block.is_empty() {
        let out: Vec<String> = Vec::new();
        assert(texts(out@) =~= Seq::<Seq<char>>::empty());
        return out;
    }
    proof {
        lemma_below_is_shorter(block@);
    }
    // Fenced code block: wrap each line verbatim, tinted gray.
    if starts_with(block, "```") {
        let mut out = code_lines(strip_fence(block), width);
        push_blank(&mut out);
        extend(&mut out, lines_of_block(text_behind_fence(block), width));
        return out;
    }
    let list = lines(block);
    let first = if list.len() == 0 {
        ""
    } else {
        assert(strs(list@)[0] == list@[0]@);
        trim_start_matches(list[0], Class::White)
    };
    proof {
        reveal_strlit("");
        assert(first@ =~= first_line(block@));
    }
    // Heading: bold with a `##` marker.
    if starts_with(first, "#") {
        let mut out = lines_of_heading(first);
        extend(&mut out, lines_of_block(text_below(block), width));
        return out;
    }
    // Lists: keep the marker and hang continuation lines under it.
    let mut out = if starts_with(first, "- ") || starts_with(first, "* ") || starts_with(
        first,
        "+ ",
    ) || starts_with_digit(first) {
        list_lines(block, width)
    } else {
        paragraph_lines(block, width)
    };
    push_blank(&mut out);
    out
}

fn opens_fence(block: &str) -> (r: bool)
    ensures
        r == open_fence(block@),
{
    proof {
        reveal_strlit("```");
    }
    starts_with(block, "```") && !contains(tail(block, 3), "```")
}

fn fence_follows(list: &Vec<&str>, start: usize) -> (r: bool)
    requires
        start <= list@.len(),
    ensures
        r == has_fence(strs(list@).skip(start as int)),
{
    let ghost rest = strs(list@).skip(start as int);
    let mut i: usize = start;
    while i < list.len()
        invariant
            start <= i <= list@.len(),
            rest == strs(list@).skip(start as int),
            forall|k: int| 0 <= k < i - start ==> !contains_of(#[trigger] rest[k], "```"@),
        decreases list@.len() - i,
    {
        assert(rest[i - start] == list@[i as int]@);
        if contains(list[i], "```") {
            return true;
        }
        i += 1;
    }
    false
}

fn read_blocks(text: &str) -> (r: Vec<String>)
    ensures
        texts(r@) == blocks_of(text@),
{
    proof {
        reveal_strlit("\n\n");
    }
    let list = pieces(text, "\n\n");
    let ghost all = strs(list@);
    assert(all.len() > 0);
    assert(all[0] == list@[0]@);
    let mut out: Vec<String> = Vec::new();
    let mut block = list[0].to_owned();
    let mut i: usize = 1;
    proof {
        assert(texts(out@) =~= Seq::<Seq<char>>::empty());
        assert(texts(out@) + blocks_of(text@) =~= blocks_of(text@));
    }
    while i < list.len()
        invariant
            1 <= i <= list@.len(),
            all == strs(list@),
            blocks_of(text@) == texts(out@) + blocks_from(block@, all.skip(i as int)),
        decreases list@.len() - i,
    {
        let ghost rest = all.skip(i as int);
        let ghost done = texts(out@);
        proof {
            assert(rest[0] == list@[i as int]@);
            assert(rest.skip(1) =~= all.skip(i + 1));
        }
        if opens_fence(trim(block.as_str())) && fence_follows(&list, i) {
            block.append("\n\n");
            block.append(list[i]);
        } else {
            proof {
                lemma_texts_push(out@, block);
                assert(done + (seq![block@] + blocks_from(rest[0], rest.skip(1))) =~= done.push(
                    block@,
                ) + blocks_from(rest[0], rest.skip(1)));
            }
            out.push(block);
            block = list[i].to_owned();
        }
        i += 1;
    }
    proof {
        assert(all.skip(i as int) =~= Seq::<Seq<char>>::empty());
        lemma_texts_push(out@, block);
        assert(texts(out@) + seq![block@] =~= texts(out@).push(block@));
    }
    out.push(block);
    out
}

/// The lines that show a body of text in an indented style with basic Markdown
/// rendering: headings in bold, `-`/numbered lists, fenced code blocks, and
/// inline bold and code spans.
pub fn body_lines(cols: Option<usize>, text: &str) -> (r: Vec<String>)
    ensures
        texts(r@) == body_of(cols, text@),
{
    let width: usize = text_columns_left(cols);
    let list = read_blocks(trim(text));
    let ghost all = texts(list@);
    let mut out: Vec<String> = Vec::new();
    let mut i: usize = 0;
    proof {
        assert(all.take(0) =~= Seq::<Seq<char>>::empty());
        assert(texts(out@) =~= Seq::<Seq<char>>::empty());
    }
    while i < list.len()
        invariant
            i <= list@.len(),
            all == texts(list@),
            texts(out@) == blocks_lines(all.take(i as int), width as nat),
        decreases list@.len() - i,
    {
        extend(&mut out, lines_of_block(trim(list[i].as_str()), width));
        proof {
            assert(all.take(i + 1).drop_last() =~= all.take(i as int));
            assert(all.take(i + 1).last() == list@[i as int]@);
        }
        i += 1;
    }
    assert(all.take(i as int) =~= all);
    out
}

/// The lines that show reasoning text in gray.
pub fn reason_lines(cols: Option<usize>, text: &str) -> (r: Vec<String>)
    ensures
        texts(r@) == reason_of(cols, text@),
{
    let width: usize = text_columns_left(cols);
    let list = lines(trim(text));
    let ghost all = strs(list@);
    let mut out: Vec<String> = Vec::new();
    let mut i: usize = 0;
    proof {
        assert(all.take(0) =~= Seq::<Seq<char>>::empty());
        assert(texts(out@) =~= Seq::<Seq<char>>::empty());
    }
    while i < list.len()
        invariant
            i <= list@.len(),
            all == strs(list@),
            texts(out@) == reasons(all.take(i as int), width as nat),
        decreases list@.len() - i,
    {
        let ghost before = texts(out@);
        let line = trim(list[i]);
        if line.is_empty() {
            push_blank(&mut out);
            assert(texts(out@) =~= before + seq![Seq::empty()]);
        } else {
            extend(&mut out, shaded_lines(line, 246, width));
        }
        proof {
            assert(all.take(i + 1).drop_last() =~= all.take(i as int));
            assert(all.take(i + 1).last() == list@[i as int]@);
        }
        i += 1;
    }
    assert(all.take(i as int) =~= all);
    out
}

/// A blank text shows nothing.
pub proof fn law_blank_text_shows_nothing(cols: Option<usize>, text: Seq<char>)
    requires
        trimmed(text).len() == 0,
    ensures
        body_of(cols, text).len() == 0,
        reason_of(cols, text).len() == 0,
{
    let t = trimmed(text);
    reveal_strlit("\n\n");
    lemma_find_from(t, "\n\n"@, 0);
    assert(pieces_of(t, "\n\n"@) == seq![t]);
    let one = seq![t];
    assert(blocks_of(t) =~= one);
    assert(one.drop_last() =~= Seq::<Seq<char>>::empty());
    assert(blocks_lines(one.drop_last(), body_width(cols)).len() == 0);
    assert(trimmed(t) == t);
    assert(blocks_lines(one, body_width(cols)).len() == 0);
    assert(lines_of(t).len() == 0);
}

/// What is left of the line of a heading without its mark.
proof fn lemma_bare_heading(bare: Seq<char>, title: Seq<char>)
    requires
        bare.len() > 0,
        bare[0] == ' ',
        bare.skip(1) == title,
        trimmed(title) == title,
    ensures
        trim_start_of(bare, Class::Hash) == bare,
        trimmed(bare) == title,
{
    assert(trim_start_of(bare, Class::White) == trim_start_of(title, Class::White));
}

/// The title on the line of a heading.
proof fn lemma_title_of_heading(line: Seq<char>, title: Seq<char>)
    requires
        line.len() > 2,
        line[0] == '#',
        line[1] == ' ',
        line.skip(2) == title,
        trimmed(title) == title,
    ensures
        line.last() != '\r',
        trim_start_of(line, Class::White) == line,
        starts_with_of(line, "#"@),
        trimmed(trim_start_of(line, Class::Hash)) == title,
{
    let bare = line.skip(1);
    assert(bare.skip(1) =~= title);
    lemma_bare_heading(bare, title);
    assert(trim_start_of(line, Class::Hash) == trim_start_of(bare, Class::Hash));
    assert(starts_with_of(line, "#"@)) by {
        reveal_strlit("#");
        assert(line.subrange(0, 1) =~= "#"@);
    }
    assert(line.last() != '\r') by {
        let r = lemma_trimmed(title);
        assert(title.last() == line.last());
    }
}

/// The first line of a block and what stands below it.
proof fn lemma_first_line_and_below(block: Seq<char>, line: Seq<char>, rest: Seq<char>)
    requires
        block == line + seq!['\n'] + rest,
        line.len() > 0,
        line.last() != '\r',
        !line.contains('\n'),
    ensures
        first_line(block) == trim_start_of(line, Class::White),
        below(block) == trimmed(rest),
{
    reveal_strlit("\n");
    assert("\n"@ =~= seq!['\n']);
    let pos = line.len() as int;
    assert forall|m: int| 0 <= m < pos implies #[trigger] block[m] != '\n' by {
        assert(block[m] == line[m]);
        assert(line.contains(line[m]));
    }
    lemma_first_char(block, '\n', pos);
    assert(block.take(pos) =~= line);
    assert(block.skip(pos + 1) =~= rest);
    assert(lines_of(block)[0] == line);
}

/// Text right below a heading is shown, behind the heading and as a block of its
/// own: nothing of it is left out.
pub proof fn law_text_below_a_heading_is_shown(title: Seq<char>, rest: Seq<char>, width: nat)
    requires
        title.len() > 0,
        trimmed(title) == title,
        !title.contains('\n'),
    ensures
        block_lines("# "@ + title + "\n"@ + rest, width) == seq![
            indent() + painted(bold_style(), "## "@ + title),
            Seq::empty(),
        ] + block_lines(trimmed(rest), width),
{
    reveal_strlit("# ");
    reveal_strlit("\n");
    let line = seq!['#', ' '] + title;
    let block = line + seq!['\n'] + rest;
    assert("# "@ + title + "\n"@ + rest =~= block);
    assert(line.skip(2) =~= title);
    lemma_title_of_heading(line, title);
    assert(!line.contains('\n')) by {
        assert forall|m: int| 0 <= m < line.len() implies line[m] != '\n' by {
            if m >= 2 {
                assert(title.contains(title[m - 2]));
            }
        }
    }
    lemma_first_line_and_below(block, line, rest);
    assert(!starts_with_of(block, "```"@)) by {
        reveal_strlit("```");
        if starts_with_of(block, "```"@) {
            assert(block.subrange(0, 3)[0] == block[0]);
        }
    }
}

/// Fenced code may have blank lines in it, any number of them: while its fence is open
/// and closed somewhere further on, what follows a blank line belongs to it. Without
/// a fence further on, and where none is open, a blank line ends the block.
pub proof fn law_blank_lines_do_not_part_fenced_code(
    block: Seq<char>,
    more: Seq<char>,
    rest: Seq<Seq<char>>,
)
    ensures
        open_fence(trimmed(block)) && contains_of(more, "```"@) ==> blocks_from(
            block,
            seq![more] + rest,
        ) == blocks_from(block + "\n\n"@ + more, rest),
        forall|k: int|
            0 <= k < rest.len() && open_fence(trimmed(block)) && contains_of(
                #[trigger] rest[k],
                "```"@,
            ) ==> blocks_from(block, seq![more] + rest) == blocks_from(
                block + "\n\n"@ + more,
                rest,
            ),
        !open_fence(trimmed(block)) ==> blocks_from(block, seq![more] + rest) == seq![block]
            + blocks_from(more, rest),
        !contains_of(more, "```"@) && (forall|k: int|
            0 <= k < rest.len() ==> !contains_of(#[trigger] rest[k], "```"@)) ==> blocks_from(
            block,
            seq![more] + rest,
        ) == seq![block] + blocks_from(more, rest),
{
    let list = seq![more] + rest;
    assert(list[0] == more);
    assert(list.skip(1) =~= rest);
    assert forall|k: int| 0 <= k < rest.len() implies list[k + 1] == #[trigger] rest[k] by {
    }
    assert forall|k: int| 0 <= k < list.len() implies #[trigger] list[k] == (if k == 0 {
        more
    } else {
        rest[k - 1]
    }) by {
    }
}

/// Text is as wide as the terminal without the indent, or as eighty columns without
/// it where there is no terminal, but never narrower than twenty columns.
pub proof fn law_text_leaves_room_for_the_indent(cols: Option<usize>)
    ensures
        body_width(cols) >= 20,
        cols is Some && cols->0 >= 24 ==> body_width(cols) + 4 == cols->0,
        cols is Some && cols->0 < 24 ==> body_width(cols) == 20,
        cols is None ==> body_width(cols) == 76,
{
}

/// Lines of code and of a reason are all shown, in order: those of two lists are
/// those of the first and then those of the second. Each is wrapped, and every line
/// of it is indented and in the shade that is asked for.
pub proof fn law_shaded_lines_are_all_shown(
    a: Seq<Seq<char>>,
    b: Seq<Seq<char>>,
    line: Seq<char>,
    shade: u8,
    width: nat,
)
    ensures
        shaded(a + b, shade, width) == shaded(a, shade, width) + shaded(b, shade, width),
        shaded(seq![line], shade, width).len() == wrapped(line, width).len(),
        forall|i: int|
            0 <= i < wrapped(line, width).len() ==> shaded(seq![line], shade, width)[i] == "    "@
                + painted(fixed_style(shade), #[trigger] wrapped(line, width)[i]),
    decreases b.len(),
{
    let one = seq![line];
    assert(one.drop_last() =~= Seq::<Seq<char>>::empty());
    assert(shaded(one.drop_last(), shade, width) =~= Seq::<Seq<char>>::empty());
    if b.len() == 0 {
        assert(a + b =~= a);
        assert(shaded(a, shade, width) + shaded(b, shade, width) =~= shaded(a, shade, width));
    } else {
        law_shaded_lines_are_all_shown(a, b.drop_last(), line, shade, width);
        assert((a + b).drop_last() =~= a + b.drop_last());
        assert((a + b).last() == b.last());
        let w = wrapped(b.last(), width);
        let more = Seq::new(w.len(), |i: int| indent() + painted(fixed_style(shade), w[i]));
        assert(shaded(a, shade, width) + (shaded(b.drop_last(), shade, width) + more) =~= shaded(
            a,
            shade,
            width,
        ) + shaded(b.drop_last(), shade, width) + more);
    }
}

/// The lines of a reason are all shown, in order and in gray, without the blanks
/// around them; a blank one stays as an empty line.
pub proof fn law_every_line_of_a_reason_is_shown(
    a: Seq<Seq<char>>,
    b: Seq<Seq<char>>,
    line: Seq<char>,
    width: nat,
)
    ensures
        reasons(a + b, width) == reasons(a, width) + reasons(b, width),
        trimmed(line).len() == 0 ==> reasons(seq![line], width) == seq![Seq::<char>::empty()],
        trimmed(line).len() > 0 ==> reasons(seq![line], width) == shaded(
            seq![trimmed(line)],
            246,
            width,
        ),
    decreases b.len(),
{
    let one = seq![line];
    let none = Seq::<Seq<char>>::empty();
    assert(one.drop_last() =~= none);
    assert(reasons(one.drop_last(), width) =~= none);
    assert(none + seq![Seq::<char>::empty()] =~= seq![Seq::<char>::empty()]);
    assert(none + shaded(seq![trimmed(line)], 246, width) =~= shaded(
        seq![trimmed(line)],
        246,
        width,
    ));
    if b.len() == 0 {
        assert(a + b =~= a);
        assert(reasons(a, width) + reasons(b, width) =~= reasons(a, width));
    } else {
        law_every_line_of_a_reason_is_shown(a, b.drop_last(), line, width);
        assert((a + b).drop_last() =~= a + b.drop_last());
        assert((a + b).last() == b.last());
        let last = trimmed(b.last());
        let more = if last.len() == 0 {
            seq![Seq::empty()]
        } else {
            shaded(seq![last], 246, width)
        };
        assert(reasons(a, width) + (reasons(b.drop_last(), width) + more) =~= reasons(a, width)
            + reasons(b.drop_last(), width) + more);
    }
}

/// The items of a list are all shown, in order: those of two lists are those of the
/// first and then those of the second.
pub proof fn law_every_item_of_a_list_is_shown(
    a: Seq<Seq<char>>,
    b: Seq<Seq<char>>,
    item: Seq<char>,
    width: nat,
)
    ensures
        list_items(a + b, width) == list_items(a, width) + list_items(b, width),
        list_items(seq![item], width) == list_item(item, width),
    decreases b.len(),
{
    let one = seq![item];
    let none = Seq::<Seq<char>>::empty();
    assert(one.drop_last() =~= none);
    assert(list_items(one.drop_last(), width) =~= none);
    assert(none + list_item(item, width) =~= list_item(item, width));
    if b.len() == 0 {
        assert(a + b =~= a);
        assert(list_items(a, width) + list_items(b, width) =~= list_items(a, width));
    } else {
        law_every_item_of_a_list_is_shown(a, b.drop_last(), item, width);
        assert((a + b).drop_last() =~= a + b.drop_last());
        assert((a + b).last() == b.last());
        let more = list_item(b.last(), width);
        assert(list_items(a, width) + (list_items(b.drop_last(), width) + more) =~= list_items(
            a,
            width,
        ) + list_items(b.drop_last(), width) + more);
    }
}

/// An item keeps its marker on its first line, and its text is wrapped beside it: the
/// further lines hang under the text, as far in as the marker is long.
pub proof fn law_an_item_hangs_under_its_marker(
    marker: Seq<char>,
    text: Seq<char>,
    width: nat,
    left: nat,
)
    requires
        width > byte_len(marker.push(' ')) ==> width == byte_len(marker.push(' ')) + left,
        width <= byte_len(marker.push(' ')) ==> left == 0,
        marker.len() > 0,
        !white_space(marker[0]),
        !marker.contains(' '),
        text.len() > 0,
        !white_space(text.last()),
    ensures
        ({
            let lead = marker.push(' ');
            let rows = wrapped(text, left);
            let shown = list_item(lead + text, width);
            &&& shown.len() == rows.len()
            &&& forall|i: int|
                0 <= i < rows.len() ==> shown[i] == "    "@ + (if i == 0 {
                    lead
                } else {
                    blanks(byte_len(lead))
                }) + inlined(#[trigger] rows[i])
        }),
{
    let lead = marker.push(' ');
    let line = lead + text;
    let pos = marker.len() as int;
    assert(line.last() == text.last());
    assert(trim_end_of(line, Class::White) == line);
    assert(line[0] == marker[0]);
    assert(trim_start_of(line, Class::White) == line);
    reveal_strlit(" ");
    assert(" "@ =~= seq![' ']);
    assert(line[pos] == ' ');
    assert forall|m: int| 0 <= m < pos implies #[trigger] line[m] != ' ' by {
        assert(marker.contains(marker[m]));
    }
    lemma_first_char(line, ' ', pos);
    assert(line.take(pos + 1) =~= lead);
    assert(line.skip(pos + 1) =~= text);
}

/// A paragraph is its words, with one space between any two, wrapped anew and
/// indented.
pub proof fn law_a_paragraph_is_its_words(block: Seq<char>, width: nat)
    ensures
        ({
            let rows = wrapped(joined(words_of(block, Class::White), seq![' ']), width);
            &&& paragraph(block, width).len() == rows.len()
            &&& forall|i: int|
                0 <= i < rows.len() ==> paragraph(block, width)[i] == "    "@ + inlined(
                    #[trigger] rows[i],
                )
        }),
{
    reveal_strlit(" ");
    assert(" "@ =~= seq![' ']);
}

/// A list starts with a dash, a star or a plus and a space, or with a digit, and
/// nothing else is a list.
pub proof fn law_what_opens_a_list(first: Seq<char>)
    ensures
        opens_list(first) <==> {
            ||| first.len() >= 2 && first[1] == ' ' && (first[0] == '-' || first[0] == '*'
                || first[0] == '+')
            ||| first.len() > 0 && '0' <= first[0] <= '9'
        },
{
    reveal_strlit("- ");
    reveal_strlit("* ");
    reveal_strlit("+ ");
    if first.len() >= 2 {
        let two = first.subrange(0, 2);
        assert(two[0] == first[0] && two[1] == first[1]);
        if first[1] == ' ' {
            assert(first[0] == '-' ==> two =~= "- "@);
            assert(first[0] == '*' ==> two =~= "* "@);
            assert(first[0] == '+' ==> two =~= "+ "@);
        }
    }
}

/// The blocks of a text are all shown, in order: those of two lists are those of the
/// first and then those of the second.
pub proof fn law_every_block_is_shown(
    a: Seq<Seq<char>>,
    b: Seq<Seq<char>>,
    block: Seq<char>,
    width: nat,
)
    ensures
        blocks_lines(a + b, width) == blocks_lines(a, width) + blocks_lines(b, width),
        blocks_lines(seq![block], width) == block_lines(trimmed(block), width),
    decreases b.len(),
{
    let one = seq![block];
    let none = Seq::<Seq<char>>::empty();
    assert(one.drop_last() =~= none);
    assert(blocks_lines(one.drop_last(), width) =~= none);
    assert(none + block_lines(trimmed(block), width) =~= block_lines(trimmed(block), width));
    if b.len() == 0 {
        assert(a + b =~= a);
        assert(blocks_lines(a, width) + blocks_lines(b, width) =~= blocks_lines(a, width));
    } else {
        law_every_block_is_shown(a, b.drop_last(), block, width);
        assert((a + b).drop_last() =~= a + b.drop_last());
        assert((a + b).last() == b.last());
        let more = block_lines(trimmed(b.last()), width);
        assert(blocks_lines(a, width) + (blocks_lines(b.drop_last(), width) + more)
            =~= blocks_lines(a, width) + blocks_lines(b.drop_last(), width) + more);
    }
}

/// Each kind of block is shown as what it is, with an empty line behind it: a list as
/// its items and anything else as a paragraph, unless it starts with a fence or the
/// mark of a heading.
pub proof fn law_each_block_is_shown_as_what_it_is(block: Seq<char>, width: nat)
    requires
        block.len() > 0,
        !starts_with_of(block, "```"@),
        first_line(block).len() == 0 || first_line(block)[0] != '#',
    ensures
        opens_list(first_line(block)) ==> block_lines(block, width) == list_items(
            lines_of(block),
            width,
        ).push(Seq::empty()),
        !opens_list(first_line(block)) ==> block_lines(block, width) == paragraph(
            block,
            width,
        ).push(Seq::empty()),
{
    reveal_strlit("#");
    let first = first_line(block);
    if starts_with_of(first, "#"@) {
        assert(first.subrange(0, 1)[0] == first[0]);
    }
}

/// An empty line parts two blocks: where no fence is open, what stands before the
/// first one is a block of its own, and what stands behind it is parted the same way.
pub proof fn law_an_empty_line_parts_blocks(a: Seq<char>, b: Seq<char>)
    requires
        !a.contains('\n'),
        !open_fence(trimmed(a)),
    ensures
        blocks_of(a + seq!['\n', '\n'] + b) == seq![a] + blocks_of(b),
        blocks_of(a) == seq![a],
{
    reveal_strlit("\n\n");
    let gap = seq!['\n', '\n'];
    assert("\n\n"@ =~= gap);
    lemma_pieces_at_gap(a, b);
    let s = a + gap + b;
    let rest = pieces_of(b, gap);
    let list = pieces_of(s, gap);
    assert(list[0] == a);
    assert(list.skip(1) =~= rest);
    assert(seq![a].skip(1) =~= Seq::<Seq<char>>::empty());
}

/// Where the first empty line is found.
proof fn lemma_first_gap(s: Seq<char>, gap: Seq<char>, n: int)
    requires
        gap == seq!['\n', '\n'],
        0 <= n <= s.len(),
        forall|m: int| 0 <= m < n ==> #[trigger] s[m] != '\n',
        n < s.len() ==> n + 1 < s.len() && s[n] == '\n' && s[n + 1] == '\n',
    ensures
        n < s.len() ==> find_of(s, gap) == Some(n),
        n == s.len() ==> find_of(s, gap) is None,
{
    if n < s.len() {
        assert(s.subrange(n, n + 2) =~= gap);
        assert(occurs_at(s, gap, n));
    }
    lemma_find_from(s, gap, 0);
    if let Some(k) = find_of(s, gap) {
        assert(s.subrange(k, k + 2)[0] == s[k]);
    }
}

/// The pieces of a text around its first empty line.
proof fn lemma_pieces_at_gap(a: Seq<char>, b: Seq<char>)
    requires
        !a.contains('\n'),
    ensures
        pieces_of(a + seq!['\n', '\n'] + b, seq!['\n', '\n']) == seq![a] + pieces_of(
            b,
            seq!['\n', '\n'],
        ),
        pieces_of(a, seq!['\n', '\n']) == seq![a],
        pieces_of(b, seq!['\n', '\n']).len() > 0,
{
    let gap = seq!['\n', '\n'];
    let s = a + gap + b;
    let n = a.len() as int;
    assert forall|m: int| 0 <= m < n implies #[trigger] s[m] != '\n' by {
        assert(a.contains(a[m]));
    }
    assert forall|m: int| 0 <= m < n implies #[trigger] a[m] != '\n' by {
        assert(a.contains(a[m]));
    }
    lemma_first_gap(s, gap, n);
    lemma_first_gap(a, gap, n);
    assert(s.take(n) =~= a);
    assert(s.skip(n + 2) =~= b);
}

/// Where the line of an opening fence ends.
proof fn lemma_fence_line(language: Seq<char>, t: Seq<char>)
    requires
        !language.contains('\n'),
    ensures
        ({
            let block = seq!['`', '`', '`'] + language + seq!['\n'] + t;
            let pos = 3 + language.len() as int;
            &&& find_of(block, "\n"@) == Some(pos)
            &&& block.skip(pos + 1) == t
            &&& starts_with_of(block, "```"@)
        }),
{
    reveal_strlit("```");
    reveal_strlit("\n");
    assert("\n"@ =~= seq!['\n']);
    let start = seq!['`', '`', '`'] + language;
    let block = start + seq!['\n'] + t;
    let pos = start.len() as int;
    assert forall|m: int| 0 <= m < pos implies #[trigger] block[m] != '\n' by {
        assert(block[m] == start[m]);
        if m >= 3 {
            assert(start[m] == language[m - 3]);
            assert(language.contains(language[m - 3]));
        }
    }
    lemma_first_char(block, '\n', pos);
    assert(block.skip(pos + 1) =~= t);
    assert(block.subrange(0, 3) =~= "```"@);
}

/// Where code ends and what stands behind its fence.
proof fn lemma_fence_end(code: Seq<char>, rest: Seq<char>)
    requires
        !rest.contains('`'),
    ensures
        ({
            let t = code + seq!['\n', '`', '`', '`'] + rest;
            let end = code.len() + 1int;
            &&& rfind_of(t, "```"@) == Some(end)
            &&& t.skip(end + 3) == rest
            &&& t.take(end) == code.push('\n')
        }),
{
    reveal_strlit("```");
    let fence = seq!['`', '`', '`'];
    assert("```"@ =~= fence);
    let t = code + seq!['\n', '`', '`', '`'] + rest;
    let end = code.len() + 1int;
    assert(t.subrange(end, end + 3) =~= fence);
    assert(occurs_at(t, fence, end));
    lemma_rfind_from(t, fence, t.len() - 3);
    if let Some(k) = rfind_of(t, fence) {
        if k > end {
            assert(t.subrange(k, k + 3)[2] == t[k + 2]);
            assert(t[k + 2] == rest[k + 2 - (end + 3)]);
            assert(rest.contains(rest[k + 2 - (end + 3)]));
        }
    }
    assert(t.skip(end + 3) =~= rest);
    assert(t.take(end) =~= code.push('\n'));
}

/// The code in a fence, and what stands behind it.
proof fn lemma_fenced_parts(language: Seq<char>, code: Seq<char>, rest: Seq<char>)
    requires
        !language.contains('\n'),
        !rest.contains('`'),
        rest.len() > 0 ==> !white_space(rest.last()),
    ensures
        ({
            let block = seq!['`', '`', '`'] + language + seq!['\n'] + (code + seq![
                '\n',
                '`',
                '`',
                '`',
            ] + rest);
            &&& block.len() > 0
            &&& starts_with_of(block, "```"@)
            &&& unfenced(block) == trimmed(code)
            &&& behind_fence(block) == trimmed(rest)
        }),
{
    let t = code + seq!['\n', '`', '`', '`'] + rest;
    let block = seq!['`', '`', '`'] + language + seq!['\n'] + t;
    lemma_fence_line(language, t);
    lemma_fence_end(code, rest);
    lemma_trim_blank_end(code, '\n');
    assert(block[0] == '`');
    assert(block.last() == t.last());
    assert(t.last() == (if rest.len() > 0 {
        rest.last()
    } else {
        '`'
    }));
    lemma_trimmed_stays(block);
}

/// Fenced code is shown line by line, tinted and with nothing parsed in it, and the
/// text behind its fence is shown below it: nothing of either is left out.
pub proof fn law_text_behind_a_fence_is_shown(
    language: Seq<char>,
    code: Seq<char>,
    rest: Seq<char>,
    width: nat,
)
    requires
        !language.contains('\n'),
        !rest.contains('`'),
        rest.len() > 0 ==> !white_space(rest.last()),
    ensures
        ({
            let fence = seq!['`', '`', '`'];
            let block = fence + language + seq!['\n'] + (code + seq!['\n', '`', '`', '`'] + rest);
            block_lines(block, width) == shaded(lines_of(trimmed(code)), 244, width).push(
                Seq::empty(),
            ) + block_lines(trimmed(rest), width)
        }),
{
    lemma_fenced_parts(language, code, rest);
}

/// The words of a heading are shown in bold behind its mark, however many marks it
/// has, and a heading without words shows nothing.
pub proof fn law_a_heading_is_shown_in_bold(marks: nat, title: Seq<char>)
    requires
        title.len() > 0 ==> title[0] != '#',
    ensures
        trimmed(title).len() > 0 ==> heading_lines(Seq::new(marks, |i: int| '#') + title) == seq![
            "    "@ + painted(bold_style(), "## "@ + trimmed(title)),
            Seq::empty(),
        ],
        trimmed(title).len() == 0 ==> heading_lines(
            Seq::new(marks, |i: int| '#') + title,
        ).len() == 0,
{
    lemma_marks_go(marks, title);
}

proof fn lemma_marks_go(marks: nat, title: Seq<char>)
    requires
        title.len() > 0 ==> title[0] != '#',
    ensures
        trim_start_of(Seq::new(marks, |i: int| '#') + title, Class::Hash) == title,
    decreases marks,
{
    let hashes = Seq::new(marks, |i: int| '#');
    let line = hashes + title;
    if marks == 0 {
        assert(line =~= title);
    } else {
        lemma_marks_go((marks - 1) as nat, title);
        assert(line[0] == '#');
        assert(line.skip(1) =~= Seq::new((marks - 1) as nat, |i: int| '#') + title);
    }
}

/// A mark without its counterpart stays where it is, as text.
pub proof fn law_a_lone_mark_stays(a: Seq<char>, rest: Seq<char>)
    requires
        !a.contains('`'),
        !a.contains('*'),
        !rest.contains('`'),
    ensures
        inlined(a + "`"@ + rest) == a + "`"@ + inlined(rest),
{
    let s = a + "`"@ + rest;
    reveal_strlit("`");
    reveal_strlit("**");
    lemma_first_tick(a, rest);
    lemma_find_from(s, "**"@, 0);
    if let Some(k) = find_of(s, "**"@) {
        assert(s.subrange(k, k + 2)[0] == s[k]);
        if k < a.len() {
            assert(a.contains(a[k]));
        }
        assert(s[a.len() as int] == '`');
        assert(k > a.len());
    }
    assert(first_mark(s) == Some((a.len() as int, false)));
    assert(s.skip(a.len() as int + 1) =~= rest);
    assert(s.take(a.len() as int) =~= a);
    lemma_find_from(rest, "`"@, 0);
    if let Some(k) = find_of(rest, "`"@) {
        assert(rest.subrange(k, k + 1)[0] == rest[k]);
        assert(rest.contains(rest[k]));
    }
}

/// A fence is open when a block starts with one and holds no other.
pub proof fn law_when_a_fence_is_open(rest: Seq<char>, other: Seq<char>)
    ensures
        open_fence(seq!['`', '`', '`'] + rest) <==> !contains_of(rest, seq!['`', '`', '`']),
        other.len() < 3 || other.take(3) != seq!['`', '`', '`'] ==> !open_fence(other),
{
    reveal_strlit("```");
    let fence = seq!['`', '`', '`'];
    assert("```"@ =~= fence);
    let s = fence + rest;
    assert(s.subrange(0, 3) =~= fence);
    assert(s.skip(3) =~= rest);
    if other.len() >= 3 {
        assert(other.take(3) =~= other.subrange(0, 3));
    }
}

/// Stars without their counterpart stay where they are, as text.
pub proof fn law_lone_stars_stay(a: Seq<char>, rest: Seq<char>)
    requires
        !a.contains('`'),
        !a.contains('*'),
        !rest.contains('*'),
    ensures
        inlined(a + "**"@ + rest) == a + "**"@ + inlined(rest),
{
    let s = a + "**"@ + rest;
    reveal_strlit("`");
    reveal_strlit("**");
    lemma_first_stars(a, rest);
    lemma_find_from(s, "`"@, 0);
    if let Some(k) = find_of(s, "`"@) {
        assert(s.subrange(k, k + 1)[0] == s[k]);
        if k < a.len() {
            assert(a.contains(a[k]));
        }
        assert(s[a.len() as int] == '*');
        assert(k > a.len());
    }
    assert(first_mark(s) == Some((a.len() as int, true)));
    assert(s.skip(a.len() as int + 2) =~= rest);
    assert(s.take(a.len() as int) =~= a);
    lemma_find_from(rest, "**"@, 0);
    if let Some(k) = find_of(rest, "**"@) {
        assert(rest.subrange(k, k + 2)[0] == rest[k]);
        assert(rest.contains(rest[k]));
    }
}

} // verus!
