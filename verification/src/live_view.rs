//! The live viewport of an ai session: the tool mode on its first line, the last
//! lines of its thinking, and the tool lines below them.

use crate::markdown::{body_width, text_columns_left};
use crate::style::{fixed_style, paint_fixed, painted};
use crate::text::{
    chars_of, contains_of, lemma_contains, lemma_contains_transitive, lemma_texts_push,
    lemma_trim_end, occurs_at, texts, trim, trim_end_matches, trim_end_of, trimmed, white_space,
    Class,
};
use crate::width::{tail_chars, tail_of, wrap_text, wrapped};
use vstd::prelude::*;

verus! {

/// Whether to draw while the ai is at work. Non-interactive output stays quiet
/// so piped runs and runs without confirmation produce clean output.
pub fn interactive(cols: Option<usize>, no_confirm: bool) -> (r: bool)
    ensures
        r == (cols is Some && !no_confirm),
{
    match cols {
        Some(_) => !no_confirm,
        None => false,
    }
}

/// The last `n` elements.
pub open spec fn last_of<T>(s: Seq<T>, n: nat) -> Seq<T> {
    if s.len() > n {
        s.skip(s.len() - n)
    } else {
        s
    }
}

/// Lines one below the other, each with a line feed behind it.
pub open spec fn stacked(list: Seq<Seq<char>>) -> Seq<char>
    decreases list.len(),
{
    if list.len() == 0 {
        Seq::empty()
    } else {
        stacked(list.drop_last()) + list.last() + "\n"@
    }
}

/// A text with a character added. A line break or a tab becomes a space, and
/// none is added behind another.
pub open spec fn with_char(s: Seq<char>, c: char) -> Seq<char> {
    if c == '\n' || c == '\r' || c == '\t' {
        if s.len() > 0 && s.last() == ' ' {
            s
        } else {
            s.push(' ')
        }
    } else {
        s.push(c)
    }
}

/// A text with the characters of another added.
pub open spec fn with_text(s: Seq<char>, t: Seq<char>) -> Seq<char>
    decreases t.len(),
{
    if t.len() == 0 {
        s
    } else {
        with_char(with_text(s, t.drop_last()), t.last())
    }
}

/// What a [`LiveView`] stands for.
pub struct Viewport {
    pub width: nat,
    /// The tool mode; empty before it is known.
    pub mode: Seq<char>,
    pub reasoning: Seq<char>,
    pub tools: Seq<Seq<char>>,
    pub cleared: bool,
}

impl Viewport {
    /// The thinking as it is shown: at most three lines, in gray.
    pub open spec fn thinking(self) -> Seq<char> {
        let rows = last_of(wrapped(tail_of(self.reasoning, self.width * 6), self.width), 3);
        stacked(Seq::new(rows.len(), |i: int| painted(fixed_style(240), "    "@ + rows[i])))
    }

    /// The line that shows the tool mode.
    pub open spec fn mode_line(self) -> Seq<char> {
        if self.mode.len() == 0 {
            Seq::empty()
        } else {
            painted(fixed_style(240), "    "@ + self.mode)
        }
    }

    /// What is drawn: the tool mode on the first line, and what goes on below it.
    pub open spec fn drawn(self) -> Seq<char> {
        self.mode_line() + self.activity()
    }

    /// What goes on: the thinking, a blank line, and at most five tool lines.
    pub open spec fn activity(self) -> Seq<char> {
        let tools = last_of(self.tools, 5);
        let gap = if tools.len() > 0 && trimmed(self.thinking()).len() > 0 {
            "\n"@
        } else {
            Seq::empty()
        };
        let shown = trim_end_of(self.thinking() + gap + stacked(tools), Class::White);
        if shown.len() == 0 {
            Seq::empty()
        } else {
            "\n"@ + shown + "\n"@
        }
    }
}

/// A live viewport for the ai session.
///
/// One viewport lives for the whole conversation: it is cleared between tool
/// rounds, never torn down, and only finished once the conversation ends.
#[derive(Debug)]
pub struct LiveView {
    pub width: usize,
    pub mode: String,
    pub reasoning: String,
    pub tools: Vec<String>,
    pub cleared: bool,
}

impl View for LiveView {
    type V = Viewport;

    open spec fn view(&self) -> Viewport {
        Viewport {
            width: self.width as nat,
            mode: self.mode@,
            reasoning: self.reasoning@,
            tools: texts(self.tools@),
            cleared: self.cleared,
        }
    }
}

/// Whether a message is the one to show: the viewport as it is, or nothing once
/// it has ended.
pub open spec fn shows(view: Viewport, message: Option<String>) -> bool {
    match message {
        Some(m) => !view.cleared && m@ == view.drawn(),
        None => view.cleared,
    }
}

impl LiveView {
    /// Opens a viewport where there is somebody to watch it.
    pub fn new(cols: Option<usize>, no_confirm: bool) -> (r: Option<Self>)
        ensures
            match r {
                Some(view) => cols is Some && !no_confirm && view@ == (Viewport {
                    width: body_width(cols),
                    mode: Seq::empty(),
                    reasoning: Seq::empty(),
                    tools: Seq::empty(),
                    cleared: false,
                }),
                None => cols is None || no_confirm,
            },
    {
        if !interactive(cols, no_confirm) {
            return None;
        }
        let view = LiveView {
            width: text_columns_left(cols),
            mode: String::new(),
            reasoning: String::new(),
            tools: Vec::new(),
            cleared: false,
        };
        assert(view@.tools =~= Seq::empty());
        Some(view)
    }

    /// Updates the mode shown on the first line, and gives the message to show.
    pub fn set_mode(&mut self, label: &str) -> (r: Option<String>)
        ensures
            final(self)@ == (Viewport {
                mode: if old(self)@.cleared {
                    old(self)@.mode
                } else {
                    label@
                },
                ..old(self)@
            }),
            shows(final(self)@, r),
    {
        if self.cleared {
            return None;
        }
        self.mode = label.to_owned();
        self.render()
    }

    /// Adds to the thinking, and gives the message to show.
    pub fn append_reasoning(&mut self, text: &str) -> (r: Option<String>)
        ensures
            final(self)@ == (Viewport {
                reasoning: if old(self)@.cleared {
                    old(self)@.reasoning
                } else {
                    with_text(old(self)@.reasoning, text@)
                },
                ..old(self)@
            }),
            shows(final(self)@, r),
    {
        if self.cleared {
            return None;
        }
        // Deltas arrive a couple of characters at a time and must be appended
        // verbatim; inserting anything between them corrupts scripts that do not
        // use spaces between words. Newlines become spaces so the viewport keeps
        // a fixed height.
        let cs = chars_of(text);
        let mut reasoning = self.reasoning.clone();
        let mut blank = ends_with_space(reasoning.as_str());
        let mut i: usize = 0;
        assert(text@.take(0) =~= Seq::<char>::empty());
        while i < cs.len()
            invariant
                cs@ == text@,
                i <= cs@.len(),
                reasoning@ == with_text(self.reasoning@, text@.take(i as int)),
                blank == (reasoning@.len() > 0 && reasoning@.last() == ' '),
            decreases cs@.len() - i,
        {
            let c = cs[i];
            assert(text@.take(i + 1).drop_last() =~= text@.take(i as int));
            if c == '\n' || c == '\r' || c == '\t' {
                if !blank {
                    reasoning.push(' ');
                    blank = true;
                }
            } else {
                reasoning.push(c);
                blank = c == ' ';
            }
            i += 1;
        }
        assert(text@.take(i as int) =~= text@);
        self.reasoning = reasoning;
        self.render()
    }

    /// Drops the thinking and tool lines so the next round starts clean; the mode
    /// stays.
    pub fn clear(&mut self) -> (r: Option<String>)
        ensures
            old(self)@.cleared ==> final(self)@ == old(self)@,
            !old(self)@.cleared ==> final(self)@ == (Viewport {
                reasoning: Seq::empty(),
                tools: Seq::empty(),
                ..old(self)@
            }),
            shows(final(self)@, r),
    {
        if self.cleared {
            return None;
        }
        self.reasoning = String::new();
        self.tools = Vec::new();
        assert(self@.tools =~= Seq::empty());
        self.render()
    }

    /// Ends the viewport, leaving the terminal to normal output. Whether it was
    /// still open.
    pub fn finish(&mut self) -> (r: bool)
        ensures
            r == !old(self)@.cleared,
            final(self)@ == (Viewport { cleared: true, ..old(self)@ }),
    {
        let open = !self.cleared;
        // Keep completed tool history visible after the final model turn.
        self.cleared = true;
        open
    }

    /// Adds a fresh tool line below the thinking.
    pub fn push_tool_line(&mut self, line: String) -> (r: Option<String>)
        ensures
            final(self)@ == (Viewport {
                tools: if old(self)@.cleared {
                    old(self)@.tools
                } else {
                    old(self)@.tools.push(line@)
                },
                ..old(self)@
            }),
            shows(final(self)@, r),
    {
        if self.cleared {
            return None;
        }
        proof {
            lemma_texts_push(self.tools@, line);
        }
        self.tools.push(line);
        self.render()
    }

    /// Replaces the wording of the last tool line in place.
    pub fn rewrite_last_tool_line(&mut self, line: String) -> (r: Option<String>)
        ensures
            final(self)@ == (Viewport {
                tools: if old(self)@.cleared || old(self)@.tools.len() == 0 {
                    old(self)@.tools
                } else {
                    old(self)@.tools.drop_last().push(line@)
                },
                ..old(self)@
            }),
            shows(final(self)@, r),
    {
        if self.cleared {
            return None;
        }
        if self.tools.len() > 0 {
            self.tools.pop();
            proof {
                assert(texts(self.tools@) =~= old(self)@.tools.drop_last());
                lemma_texts_push(self.tools@, line);
            }
            self.tools.push(line);
        }
        self.render()
    }

    /// The message that shows the viewport, while it is open.
    pub fn render(&self) -> (r: Option<String>)
        ensures
            shows(self@, r),
    {
        if self.cleared {
            return None;
        }
        // Show at most three actual thinking lines.
        let len: usize = self.reasoning.as_str().unicode_len();
        let kept = match self.width.checked_mul(6) {
            Some(n) => tail_chars(self.reasoning.as_str(), n),
            None => self.reasoning.clone(),
        };
        assert(len == self.reasoning@.len());
        assert(kept@ == tail_of(self.reasoning@, self@.width * 6));
        let rows = wrap_text(kept.as_str(), self.width);
        let ghost all = texts(rows@);
        let ghost last = last_of(all, 3);
        let ghost shown = Seq::new(
            last.len(),
            |i: int| painted(fixed_style(240), "    "@ + last[i]),
        );
        let start: usize = if rows.len() > 3 {
            rows.len() - 3
        } else {
            0
        };
        let mut msg = String::new();
        let mut i: usize = start;
        assert(shown.take(0) =~= Seq::<Seq<char>>::empty());
        while i < rows.len()
            invariant
                start <= i <= rows@.len(),
                all == texts(rows@),
                last == last_of(all, 3),
                start == all.len() - last.len(),
                shown == Seq::new(
                    last.len(),
                    |k: int| painted(fixed_style(240), "    "@ + last[k]),
                ),
                msg@ == stacked(shown.take(i - start)),
            decreases rows@.len() - i,
        {
            let mut row = "    ".to_owned();
            row.append(rows[i].as_str());
            msg.append(paint_fixed(240, row.as_str()).as_str());
            msg.append("\n");
            proof {
                let k = i - start;
                assert(last[k] == all[i as int]);
                assert(shown.take(k + 1).drop_last() =~= shown.take(k));
                assert(shown.take(k + 1).last() == shown[k]);
            }
            i += 1;
        }
        proof {
            assert(shown.take(i - start) =~= shown);
            assert(msg@ == self@.thinking());
        }
        let ghost thinking = msg@;
        // A blank line separates the thinking from the tool lines.
        if self.tools.len() > 0 && !trim(msg.as_str()).is_empty() {
            msg.append("\n");
        }
        let ghost above = msg@;
        let ghost tools = last_of(texts(self.tools@), 5);
        assert(above =~= thinking + (if tools.len() > 0 && trimmed(thinking).len() > 0 {
            "\n"@
        } else {
            Seq::empty()
        }));
        let first: usize = if self.tools.len() > 5 {
            self.tools.len() - 5
        } else {
            0
        };
        let mut j: usize = first;
        assert(tools.take(0) =~= Seq::<Seq<char>>::empty());
        while j < self.tools.len()
            invariant
                first <= j <= self.tools@.len(),
                tools == last_of(texts(self.tools@), 5),
                first == self.tools@.len() - tools.len(),
                msg@ == above + stacked(tools.take(j - first)),
            decreases self.tools@.len() - j,
        {
            msg.append(self.tools[j].as_str());
            msg.append("\n");
            proof {
                let k = j - first;
                assert(tools[k] == self.tools@[j as int]@);
                assert(tools.take(k + 1).drop_last() =~= tools.take(k));
                assert(tools.take(k + 1).last() == tools[k]);
                assert(msg@ =~= above + (stacked(tools.take(k)) + tools[k] + "\n"@));
            }
            j += 1;
        }
        assert(tools.take(j - first) =~= tools);
        let shown = trim_end_matches(msg.as_str(), Class::White);
        let mut out = String::new();
        if !self.mode.as_str().is_empty() {
            let mut row = "    ".to_owned();
            row.append(self.mode.as_str());
            out = paint_fixed(240, row.as_str());
        }
        assert(out@ =~= self@.mode_line());
        if !shown.is_empty() {
            out.append("\n");
            out.append(shown);
            out.append("\n");
        }
        assert(out@ =~= self@.drawn());
        Some(out)
    }
}

/// The first line of the viewport shows the mode, and follows it: whatever it
/// was before, and whatever the thinking and the tools are.
pub proof fn law_the_first_line_shows_the_mode(view: Viewport, label: Seq<char>)
    requires
        label.len() > 0,
    ensures
        ({
            let drawn = (Viewport { mode: label, ..view }).drawn();
            let line = painted(fixed_style(240), "    "@ + label);
            &&& line.is_prefix_of(drawn)
            &&& drawn.len() > line.len() ==> drawn[line.len() as int] == '\n'
        }),
{
    reveal_strlit("\n");
    let now = Viewport { mode: label, ..view };
    let line = painted(fixed_style(240), "    "@ + label);
    assert(now.mode_line() == line);
    let activity = now.activity();
    assert((line + activity).subrange(0, line.len() as int) =~= line);
    if activity.len() > 0 {
        assert(activity[0] == '\n');
        assert((line + activity)[line.len() as int] == activity[0]);
    }
}

fn ends_with_space(s: &str) -> (r: bool)
    ensures
        r == (s@.len() > 0 && s@.last() == ' '),
{
    let n: usize = s.unicode_len();
    n > 0 && s.get_char(n - 1) == ' '
}

/// Text without line breaks or tabs is appended verbatim.
pub proof fn law_deltas_are_appended_verbatim(s: Seq<char>, t: Seq<char>)
    requires
        !t.contains('\n'),
        !t.contains('\r'),
        !t.contains('\t'),
    ensures
        with_text(s, t) == s + t,
    decreases t.len(),
{
    if t.len() == 0 {
        assert(s + t =~= s);
    } else {
        let u = t.drop_last();
        assert(t.contains(t.last()));
        assert forall|c: char| u.contains(c) implies t.contains(c) by {
            let i = choose|i: int| 0 <= i < u.len() && u[i] == c;
            assert(t[i] == c);
        }
        law_deltas_are_appended_verbatim(s, u);
        assert((s + u).push(t.last()) =~= s + t);
    }
}

/// It does not matter how the thinking is cut into deltas.
pub proof fn law_deltas_may_be_cut_anywhere(s: Seq<char>, a: Seq<char>, b: Seq<char>)
    ensures
        with_text(with_text(s, a), b) == with_text(s, a + b),
    decreases b.len(),
{
    if b.len() == 0 {
        assert(a + b =~= a);
    } else {
        law_deltas_may_be_cut_anywhere(s, a, b.drop_last());
        assert((a + b).drop_last() =~= a + b.drop_last());
    }
}

/// The thinking never breaks the line, so the viewport keeps its height.
pub proof fn law_thinking_has_no_line_breaks(s: Seq<char>, t: Seq<char>)
    requires
        !s.contains('\n'),
        !s.contains('\r'),
    ensures
        !with_text(s, t).contains('\n'),
        !with_text(s, t).contains('\r'),
    decreases t.len(),
{
    if t.len() > 0 {
        law_thinking_has_no_line_breaks(s, t.drop_last());
        let u = with_text(s, t.drop_last());
        let v = with_char(u, t.last());
        assert forall|c: char| v.contains(c) implies u.contains(c) || c == v.last() by {
            let i = choose|i: int| 0 <= i < v.len() && v[i] == c;
            if i < u.len() {
                assert(u[i] == c);
            }
        }
    }
}

/// Lines are stacked in order, none left out: those of two lists are those of the
/// first and then those of the second, and each stands before a line feed.
pub proof fn law_every_line_is_stacked(a: Seq<Seq<char>>, b: Seq<Seq<char>>, line: Seq<char>)
    ensures
        stacked(a + b) == stacked(a) + stacked(b),
        stacked(seq![line]) == line + seq!['\n'],
    decreases b.len(),
{
    reveal_strlit("\n");
    assert("\n"@ =~= seq!['\n']);
    let one = seq![line];
    assert(one.drop_last() =~= Seq::<Seq<char>>::empty());
    assert(stacked(one.drop_last()) =~= Seq::<char>::empty());
    assert(stacked(one) =~= line + seq!['\n']);
    if b.len() == 0 {
        assert(a + b =~= a);
        assert(stacked(a) + stacked(b) =~= stacked(a));
    } else {
        law_every_line_is_stacked(a, b.drop_last(), line);
        assert((a + b).drop_last() =~= a + b.drop_last());
        assert((a + b).last() == b.last());
        assert(stacked(a) + (stacked(b.drop_last()) + b.last() + "\n"@) =~= stacked(a) + stacked(
            b.drop_last(),
        ) + b.last() + "\n"@);
    }
}

/// Of a list that is too long the last lines are shown, as many as there is room for.
pub proof fn law_the_last_lines_are_kept(a: Seq<Seq<char>>, b: Seq<Seq<char>>, n: nat)
    ensures
        b.len() == n ==> last_of(a + b, n) == b,
        b.len() <= n ==> last_of(b, n) == b,
{
    if b.len() == n {
        assert(last_of(a + b, n) =~= b);
    }
}

proof fn lemma_stacked_holds(list: Seq<Seq<char>>, k: int)
    requires
        0 <= k < list.len(),
    ensures
        contains_of(stacked(list), list[k]),
    decreases list.len(),
{
    let prev = list.drop_last();
    if k < prev.len() {
        lemma_stacked_holds(prev, k);
        lemma_contains(Seq::empty(), stacked(prev), list.last() + "\n"@, stacked(list));
        assert(prev[k] == list[k]);
        lemma_contains_transitive(stacked(list), stacked(prev), list[k]);
    } else {
        lemma_contains(stacked(prev), list.last(), "\n"@, stacked(list));
    }
}

proof fn lemma_trimmed_end_holds(s: Seq<char>, line: Seq<char>)
    requires
        contains_of(s, line),
        line.len() > 0,
        !white_space(line.last()),
    ensures
        contains_of(trim_end_of(s, Class::White), line),
{
    let i = choose|i: int| occurs_at(s, line, i);
    let t = trim_end_of(s, Class::White);
    lemma_trim_end(s, Class::White);
    let e = i + line.len();
    assert(s.subrange(i, e) == line);
    assert(s.subrange(i, e)[line.len() - 1] == s[e - 1]);
    assert(t.subrange(i, e) =~= line);
    assert(occurs_at(t, line, i));
}

/// The viewport shows the last three lines of the thinking, in gray and indented, and
/// the last five tool lines as they are; what it shows stands below the line of the
/// mode.
pub proof fn law_the_viewport_shows_the_latest(view: Viewport, k: int)
    ensures
        ({
            let rows = wrapped(tail_of(view.reasoning, view.width * 6), view.width);
            &&& rows.len() - 3 <= k < rows.len() && 0 <= k ==> contains_of(
                view.drawn(),
                painted(fixed_style(240), "    "@ + rows[k]),
            )
            &&& view.tools.len() - 5 <= k < view.tools.len() && 0 <= k && view.tools[k].len() > 0
                && !white_space(view.tools[k].last()) ==> contains_of(view.drawn(), view.tools[k])
        }),
{
    let rows = wrapped(tail_of(view.reasoning, view.width * 6), view.width);
    let last = last_of(rows, 3);
    let lines = Seq::new(last.len(), |i: int| painted(fixed_style(240), "    "@ + last[i]));
    let thinking = view.thinking();
    let tools = last_of(view.tools, 5);
    let gap = if tools.len() > 0 && trimmed(thinking).len() > 0 {
        "\n"@
    } else {
        Seq::empty()
    };
    let below = stacked(tools);
    let all = thinking + gap + below;
    let shown = trim_end_of(all, Class::White);
    assert(thinking == stacked(lines));
    if rows.len() - 3 <= k < rows.len() && 0 <= k {
        let j = k - (rows.len() - last.len());
        assert(last[j] == rows[k]);
        let line = lines[j];
        lemma_stacked_holds(lines, j);
        lemma_contains(Seq::empty(), thinking, gap + below, all);
        lemma_contains_transitive(all, thinking, line);
        lemma_painted_end("    "@ + rows[k]);
        lemma_trimmed_end_holds(all, line);
        lemma_shown_is_drawn(view, shown, line);
    }
    if view.tools.len() - 5 <= k < view.tools.len() && 0 <= k && view.tools[k].len() > 0
        && !white_space(view.tools[k].last()) {
        let j = k - (view.tools.len() - tools.len());
        assert(tools[j] == view.tools[k]);
        let line = tools[j];
        lemma_stacked_holds(tools, j);
        lemma_contains(thinking + gap, below, Seq::empty(), all);
        lemma_contains_transitive(all, below, line);
        lemma_trimmed_end_holds(all, line);
        lemma_shown_is_drawn(view, shown, line);
    }
}

proof fn lemma_painted_end(s: Seq<char>)
    ensures
        painted(fixed_style(240), s).len() > 0,
        painted(fixed_style(240), s).last() == 'm',
{
    reveal_strlit("\x1b[0m");
    assert("\x1b[0m"@.last() == 'm');
}

proof fn lemma_shown_is_drawn(view: Viewport, shown: Seq<char>, line: Seq<char>)
    requires
        line.len() > 0,
        contains_of(shown, line),
        shown == ({
            let tools = last_of(view.tools, 5);
            let gap = if tools.len() > 0 && trimmed(view.thinking()).len() > 0 {
                "\n"@
            } else {
                Seq::empty()
            };
            trim_end_of(view.thinking() + gap + stacked(tools), Class::White)
        }),
    ensures
        contains_of(view.drawn(), line),
{
    let i = choose|i: int| occurs_at(shown, line, i);
    assert(shown.len() > 0);
    assert(view.activity() == "\n"@ + shown + "\n"@);
    lemma_contains(view.mode_line() + "\n"@, shown, "\n"@, view.drawn());
    lemma_contains_transitive(view.drawn(), shown, line);
}

/// A line break or a tab in the thinking is one space, and none behind another: the
/// text stays on one line, and no word runs into the next.
pub proof fn law_breaks_become_spaces(s: Seq<char>, c: char)
    requires
        c == '\n' || c == '\r' || c == '\t',
    ensures
        s.len() > 0 && s.last() == ' ' ==> with_text(s, seq![c]) == s,
        s.len() == 0 || s.last() != ' ' ==> with_text(s, seq![c]) == s.push(' '),
{
    let one = seq![c];
    assert(one.drop_last() =~= Seq::<char>::empty());
    assert(with_text(s, one.drop_last()) == s);
}

} // verus!
