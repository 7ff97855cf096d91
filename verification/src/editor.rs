//! The line editor behind the prompts that ask for free text.
//!
//! The terminal hands over one byte at a time. A byte finishes a key, or is
//! kept until the key is complete: an escape sequence is three bytes long, a
//! character as long as its first byte says.

use crate::text::{chars_of, decimal, number_text, string_of};
use crate::width::{text_columns, text_width};
use vstd::prelude::*;
use vstd::utf8::{
    char_is_scalar, decode_utf8, encode_scalar, encode_utf8, encode_utf8_decode_utf8,
    encode_utf8_first_scalar, encode_utf8_valid_utf8, valid_utf8,
};

verus! {

/// Reads bytes as UTF-8, by `std::str::from_utf8`: the text they encode, or
/// nothing if they encode none.
#[verifier::external_body]
fn from_utf8(bytes: &[u8]) -> (r: Option<String>)
    ensures
        r is Some <==> valid_utf8(bytes@),
        r is Some ==> r->0@ == decode_utf8(bytes@),
{
    match std::str::from_utf8(bytes) {
        Ok(text) => Some(text.to_string()),
        Err(_) => None,
    }
}

/// What a [`LineEditor`] stands for: the text, the place of the cursor in it,
/// and the bytes of a key that is not complete yet.
#[verifier::ext_equal]
pub struct Line {
    pub text: Seq<char>,
    pub cursor: int,
    pub pending: Seq<u8>,
}

/// What a byte leads to.
pub enum Effect {
    /// Nothing to show.
    Quiet,
    /// The line has to be drawn again.
    Shown,
    /// The line is complete.
    Ended,
}

/// The number of bytes in the key that starts with a byte.
pub open spec fn key_len(first: u8) -> nat {
    if first == 0x1b {
        3
    } else if 0xc0 <= first <= 0xdf {
        2
    } else if 0xe0 <= first <= 0xef {
        3
    } else if 0xf0 <= first <= 0xf7 {
        4
    } else {
        1
    }
}

impl Line {
    /// The cursor is in the text or behind it, and the bytes that are kept do
    /// not make a whole key.
    pub open spec fn wf(self) -> bool {
        &&& 0 <= self.cursor <= self.text.len()
        &&& self.pending.len() > 0 ==> self.pending.len() < key_len(self.pending[0])
    }

    /// An empty line.
    pub open spec fn blank() -> Line {
        Line { text: Seq::empty(), cursor: 0, pending: Seq::empty() }
    }

    /// The line with the cursor elsewhere.
    pub open spec fn at(self, cursor: int) -> Line {
        Line { text: self.text, cursor, pending: Seq::empty() }
    }

    /// The line with a text put in at the cursor.
    pub open spec fn typed(self, s: Seq<char>) -> Line {
        Line {
            text: self.text.take(self.cursor) + s + self.text.skip(self.cursor),
            cursor: self.cursor + s.len(),
            pending: Seq::empty(),
        }
    }

    /// The line without the character before the cursor.
    pub open spec fn erased(self) -> Line {
        Line {
            text: self.text.remove(self.cursor - 1),
            cursor: self.cursor - 1,
            pending: Seq::empty(),
        }
    }

    /// What a complete key does.
    pub open spec fn after_key(self, key: Seq<u8>) -> (Line, Effect) {
        let first = key[0];
        let same = self.at(self.cursor);
        if first == 0x0a || first == 0x0d {
            (same, Effect::Ended)
        } else if first == 0x7f || first == 0x08 {
            if self.cursor > 0 {
                (self.erased(), Effect::Shown)
            } else {
                (same, Effect::Quiet)
            }
        } else if first == 0x04 {
            if self.text.len() == 0 {
                (same, Effect::Ended)
            } else {
                (same, Effect::Quiet)
            }
        } else if first == 0x15 {
            (Line::blank(), Effect::Shown)
        } else if first == 0x1b {
            if key[1] != 0x5b {
                (same, Effect::Quiet)
            } else if key[2] == 0x44 && self.cursor > 0 {
                (self.at(self.cursor - 1), Effect::Shown)
            } else if key[2] == 0x43 && self.cursor < self.text.len() {
                (self.at(self.cursor + 1), Effect::Shown)
            } else if key[2] == 0x48 {
                (self.at(0), Effect::Shown)
            } else if key[2] == 0x46 {
                (self.at(self.text.len() as int), Effect::Shown)
            } else {
                (same, Effect::Quiet)
            }
        } else if first < 0x20 || 0x80 <= first <= 0xbf || 0xf8 <= first {
            (same, Effect::Quiet)
        } else if valid_utf8(key) {
            (self.typed(decode_utf8(key)), Effect::Shown)
        } else {
            (same, Effect::Quiet)
        }
    }

    /// What a byte does.
    pub open spec fn after_byte(self, byte: u8) -> (Line, Effect) {
        let key = self.pending.push(byte);
        if key.len() < key_len(key[0]) {
            (Line { text: self.text, cursor: self.cursor, pending: key }, Effect::Quiet)
        } else {
            self.after_key(key)
        }
    }

    /// The line after several bytes.
    pub open spec fn after_bytes(self, bytes: Seq<u8>) -> Line
        decreases bytes.len(),
    {
        if bytes.len() == 0 {
            self
        } else {
            self.after_bytes(bytes.drop_last()).after_byte(bytes.last()).0
        }
    }

    /// Whether one of several bytes completes the line.
    pub open spec fn ends_within(self, bytes: Seq<u8>) -> bool {
        exists|i: int|
            0 <= i < bytes.len() && (#[trigger] self.after_bytes(bytes.take(i)).after_byte(
                bytes[i],
            )).1 == Effect::Ended
    }

    /// What draws the line again: the prompt and the text from the start of the
    /// row, nothing after them, and the cursor moved back over the columns
    /// behind it.
    pub open spec fn drawn(self, prompt: Seq<char>) -> Seq<char> {
        let back = text_columns(self.text.skip(self.cursor));
        let row = "\r"@ + prompt + self.text + "\x1b[K"@;
        if back > 0 {
            row + "\x1b["@ + decimal(back as nat) + "D"@
        } else {
            row
        }
    }
}

/// What to do after a byte.
#[derive(Debug)]
pub enum Step {
    /// Read the next byte.
    Wait,
    /// Write this to the terminal and read the next byte.
    Draw(String),
    /// The line is complete, with this text.
    Done(String),
}

/// A line being edited.
#[derive(Debug)]
pub struct LineEditor {
    prompt: String,
    // The buffer is a list of characters, not bytes: the cursor counts
    // characters and is only ever converted when drawing.
    buffer: Vec<char>,
    cursor: usize,
    pending: Vec<u8>,
}

impl View for LineEditor {
    type V = Line;

    closed spec fn view(&self) -> Line {
        Line { text: self.buffer@, cursor: self.cursor as int, pending: self.pending@ }
    }
}

impl LineEditor {
    /// What stands before the text on the terminal.
    pub closed spec fn prompt_text(&self) -> Seq<char> {
        self.prompt@
    }

    /// Starts with an empty line behind a prompt.
    pub fn new(prompt: String) -> (r: Self)
        ensures
            r@ == Line::blank(),
            r@.wf(),
            r.prompt_text() == prompt@,
    {
        let r = LineEditor { prompt, buffer: Vec::new(), cursor: 0, pending: Vec::new() };
        assert(r@ =~= Line::blank());
        r
    }

    /// The text as it stands.
    pub fn text(&self) -> (r: String)
        ensures
            r@ == self@.text,
    {
        string_of(self.buffer.as_slice())
    }

    fn redraw(&self) -> (r: String)
        requires
            self@.wf(),
        ensures
            r@ == self@.drawn(self.prompt_text()),
    {
        let mut out = "\r".to_owned();
        out.append(self.prompt.as_str());
        out.append(self.text().as_str());
        out.append("\x1b[K");
        let mut behind: Vec<char> = Vec::new();
        let mut i: usize = self.cursor;
        while i < self.buffer.len()
            invariant
                self.cursor <= i <= self.buffer@.len(),
                behind@ == self.buffer@.subrange(self.cursor as int, i as int),
            decreases self.buffer@.len() - i,
        {
            behind.push(self.buffer[i]);
            i += 1;
        }
        assert(behind@ =~= self@.text.skip(self@.cursor));
        let back: usize = text_width(string_of(behind.as_slice()).as_str());
        if back > 0 {
            out.append("\x1b[");
            out.append(number_text(back as u64).as_str());
            out.append("D");
        }
        out
    }

    fn insert(&mut self, text: &str)
        requires
            old(self)@.wf(),
            old(self)@.pending.len() == 0,
        ensures
            final(self)@ == old(self)@.typed(text@),
            final(self).prompt_text() == old(self).prompt_text(),
    {
        let cs = chars_of(text);
        let ghost before = self.buffer@;
        let ghost start = self.cursor as int;
        let mut k: usize = 0;
        assert(before.take(start) + cs@.take(0) + before.skip(start) =~= before);
        while k < cs.len()
            invariant
                cs@ == text@,
                k <= cs@.len(),
                self.prompt_text() == old(self).prompt_text(),
                self.pending@.len() == 0,
                0 <= start <= before.len(),
                self.cursor == start + k,
                self.buffer@ == before.take(start) + cs@.take(k as int) + before.skip(start),
            decreases cs@.len() - k,
        {
            self.buffer.insert(self.cursor, cs[k]);
            let n: usize = self.buffer.len();
            assert(self.cursor < n);
            self.cursor += 1;
            k += 1;
            assert(self.buffer@ =~= before.take(start) + cs@.take(k as int) + before.skip(start));
        }
        assert(cs@.take(k as int) =~= text@);
        assert(self@ =~= old(self)@.typed(text@));
    }

    /// Takes the next byte from the terminal.
    pub fn step(&mut self, byte: u8) -> (r: Step)
        requires
            old(self)@.wf(),
        ensures
            final(self)@.wf(),
            final(self)@ == old(self)@.after_byte(byte).0,
            final(self).prompt_text() == old(self).prompt_text(),
            match r {
                Step::Wait => old(self)@.after_byte(byte).1 == Effect::Quiet,
                Step::Draw(s) => old(self)@.after_byte(byte).1 == Effect::Shown
                    && s@ == final(self)@.drawn(final(self).prompt_text()),
                Step::Done(t) => old(self)@.after_byte(byte).1 == Effect::Ended
                    && t@ == final(self)@.text,
            },
    {
        let mut key: Vec<u8> = Vec::new();
        std::mem::swap(&mut key, &mut self.pending);
        key.push(byte);
        let first: u8 = key[0];
        let want: usize = if first == 0x1b || (0xe0 <= first && first <= 0xef) {
            3
        } else if 0xc0 <= first && first <= 0xdf {
            2
        } else if 0xf0 <= first && first <= 0xf7 {
            4
        } else {
            1
        };
        if key.len() < want {
            self.pending = key;
            assert(self@ =~= old(self)@.after_byte(byte).0);
            return Step::Wait;
        }
        assert(self.pending@ =~= Seq::<u8>::empty());
        let ghost same = old(self)@.at(old(self)@.cursor);
        assert(self@ =~= same);
        if first == 0x0a || first == 0x0d {
            return Step::Done(self.text());
        }
        if first == 0x7f || first == 0x08 {
            // Only ever removes a character the user typed, so the prompt can
            // not be eaten.
            if self.cursor == 0 {
                return Step::Wait;
            }
            self.cursor -= 1;
            self.buffer.remove(self.cursor);
            assert(self@ =~= old(self)@.erased());
        } else if first == 0x04 {
            // On an empty line this ends the prompt, like a shell.
            if self.buffer.len() == 0 {
                return Step::Done(self.text());
            }
            return Step::Wait;
        } else if first == 0x15 {
            self.buffer.clear();
            self.cursor = 0;
            assert(self@ =~= Line::blank());
        } else if first == 0x1b {
            if key[1] != 0x5b {
                return Step::Wait;
            }
            if key[2] == 0x44 && self.cursor > 0 {
                self.cursor -= 1;
            } else if key[2] == 0x43 && self.cursor < self.buffer.len() {
                self.cursor += 1;
            } else if key[2] == 0x48 {
                self.cursor = 0;
            } else if key[2] == 0x46 {
                self.cursor = self.buffer.len();
            } else {
                return Step::Wait;
            }
            assert(self@ =~= old(self)@.at(self.cursor as int));
        } else if first < 0x20 || (0x80 <= first && first <= 0xbf) || 0xf8 <= first {
            // The remaining control characters are not editing keys, and a
            // stray continuation byte leaves nothing to insert.
            return Step::Wait;
        } else {
            match from_utf8(key.as_slice()) {
                Some(text) => {
                    self.insert(text.as_str());
                    assert(self@ =~= old(self)@.typed(text@));
                },
                None => {
                    return Step::Wait;
                },
            }
        }
        Step::Draw(self.redraw())
    }
}

/// Whether a character is text rather than a key that edits it.
pub open spec fn printable(c: char) -> bool {
    ' ' <= c && c != '\u{7f}'
}

/// The bytes of an incomplete key are kept.
proof fn lemma_partial_key(line: Line, key: Seq<u8>, i: int)
    requires
        line.pending.len() == 0,
        0 <= i < key.len(),
        key.len() == key_len(key[0]),
    ensures
        line.after_bytes(key.take(i)) == (Line {
            text: line.text,
            cursor: line.cursor,
            pending: key.take(i),
        }),
    decreases i,
{
    if i == 0 {
        assert(line.pending =~= key.take(0));
    } else {
        lemma_partial_key(line, key, i - 1);
        assert(key.take(i).drop_last() =~= key.take(i - 1));
        assert(key.take(i - 1).push(key[i - 1]) =~= key.take(i));
    }
}

/// The bytes of a printable character put it in at the cursor.
proof fn lemma_typed_char(line: Line, c: char)
    requires
        line.wf(),
        line.pending.len() == 0,
        printable(c),
    ensures
        line.after_bytes(encode_scalar(c as u32)) == line.typed(seq![c]),
        !line.ends_within(encode_scalar(c as u32)),
{
    let key = encode_scalar(c as u32);
    char_is_scalar(c);
    let one = seq![c];
    assert(one.drop_first() =~= Seq::<char>::empty());
    assert(encode_utf8(one.drop_first()) =~= Seq::<u8>::empty());
    assert(encode_utf8(one) =~= key);
    encode_utf8_first_scalar(one);
    encode_utf8_valid_utf8(one);
    encode_utf8_decode_utf8(one);
    let first = key[0];
    if key.len() == 1 {
        assert(first <= 0x7f ==> (first & 0x7f) as u32 == first as u32) by (bit_vector);
        assert(first as u32 == c as u32);
    }
    assert(key.len() == key_len(first));
    let n = key.len() as int;
    lemma_partial_key(line, key, n - 1);
    assert(key.drop_last() =~= key.take(n - 1));
    assert(key.take(n - 1).push(key.last()) =~= key);
    assert(line.after_bytes(key) == line.typed(one));
    assert forall|i: int| 0 <= i < key.len() implies (#[trigger] line.after_bytes(
        key.take(i),
    ).after_byte(key[i])).1 != Effect::Ended by {
        lemma_partial_key(line, key, i);
        assert(key.take(i).push(key[i]) =~= key.take(i + 1));
        if i == n - 1 {
            assert(key.take(i + 1) =~= key);
        }
    }
}

/// Bytes that come in two parts come one after the other.
proof fn lemma_after_bytes_in_parts(line: Line, a: Seq<u8>, b: Seq<u8>)
    ensures
        line.after_bytes(a + b) == line.after_bytes(a).after_bytes(b),
    decreases b.len(),
{
    if b.len() == 0 {
        assert(a + b =~= a);
    } else {
        lemma_after_bytes_in_parts(line, a, b.drop_last());
        assert((a + b).drop_last() =~= a + b.drop_last());
    }
}

/// What is typed is what stands in the line: the bytes of a printable text, in
/// whatever script, put that text in at the cursor and leave the cursor behind
/// it, and none of them ends the line.
pub proof fn law_typed_text_is_inserted(line: Line, text: Seq<char>)
    requires
        line.wf(),
        line.pending.len() == 0,
        forall|i: int| 0 <= i < text.len() ==> printable(#[trigger] text[i]),
    ensures
        line.after_bytes(encode_utf8(text)) == line.typed(text),
        !line.ends_within(encode_utf8(text)),
    decreases text.len(),
{
    if text.len() == 0 {
        assert(encode_utf8(text) =~= Seq::<u8>::empty());
        assert(line.typed(text) =~= line);
    } else {
        let c = text[0];
        let a = encode_scalar(c as u32);
        let rest = text.drop_first();
        let b = encode_utf8(rest);
        let next = line.typed(seq![c]);
        assert forall|i: int| 0 <= i < rest.len() implies printable(#[trigger] rest[i]) by {
            assert(rest[i] == text[i + 1]);
        }
        lemma_typed_char(line, c);
        lemma_after_bytes_in_parts(line, a, b);
        law_typed_text_is_inserted(next, rest);
        assert(next.typed(rest) =~= line.typed(text));
        let all = encode_utf8(text);
        assert(all == a + b);
        assert forall|i: int| 0 <= i < all.len() implies (#[trigger] line.after_bytes(
            all.take(i),
        ).after_byte(all[i])).1 != Effect::Ended by {
            if i < a.len() {
                assert(all.take(i) =~= a.take(i));
                assert(line.after_bytes(a.take(i)).after_byte(a[i]).1 != Effect::Ended);
            } else {
                let j = i - a.len();
                assert(all.take(i) =~= a + b.take(j));
                lemma_after_bytes_in_parts(line, a, b.take(j));
                assert(next.after_bytes(b.take(j)).after_byte(b[j]).1 != Effect::Ended);
            }
        }
    }
}

/// A text typed into an empty line and followed by Enter is what the prompt
/// answers.
pub proof fn law_entered_text_is_returned(text: Seq<char>, enter: u8)
    requires
        forall|i: int| 0 <= i < text.len() ==> printable(#[trigger] text[i]),
        enter == 0x0a || enter == 0x0d,
    ensures
        !Line::blank().ends_within(encode_utf8(text)),
        Line::blank().after_bytes(encode_utf8(text)).after_byte(enter).1 == Effect::Ended,
        Line::blank().after_bytes(encode_utf8(text)).after_byte(enter).0.text == text,
{
    law_typed_text_is_inserted(Line::blank(), text);
    let line = Line::blank().typed(text);
    assert(line.text =~= text);
    assert(line.pending.push(enter).len() == 1);
}

/// Backspace takes back the character typed last.
pub proof fn law_backspace_undoes_typing(line: Line, c: char)
    requires
        line.wf(),
        line.pending.len() == 0,
        printable(c),
    ensures
        line.after_bytes(encode_utf8(seq![c])).after_byte(0x7f).0 == line,
{
    let one = seq![c];
    law_typed_text_is_inserted(line, one);
    let next = line.typed(one);
    assert(next.pending.push(0x7fu8).len() == 1);
    assert(next.erased() =~= line);
}

/// Left and right cancel out wherever the cursor can move left.
pub proof fn law_arrows_cancel_out(line: Line)
    requires
        line.wf(),
        line.pending.len() == 0,
        line.cursor > 0,
    ensures
        line.after_bytes(seq![0x1bu8, 0x5b, 0x44]).after_bytes(seq![0x1bu8, 0x5b, 0x43]) == line,
{
    let left = seq![0x1bu8, 0x5b, 0x44];
    let right = seq![0x1bu8, 0x5b, 0x43];
    lemma_partial_key(line, left, 2);
    assert(left.drop_last() =~= left.take(2));
    assert(left.take(2).push(left.last()) =~= left);
    let moved = line.after_bytes(left);
    assert(moved == line.at(line.cursor - 1));
    lemma_partial_key(moved, right, 2);
    assert(right.drop_last() =~= right.take(2));
    assert(right.take(2).push(right.last()) =~= right);
    assert(moved.after_bytes(right) =~= line);
}

/// No byte makes the cursor leave the text, and only typing, erasing and
/// clearing change the text.
pub proof fn law_a_byte_keeps_the_line_well_formed(line: Line, byte: u8)
    requires
        line.wf(),
    ensures
        line.after_byte(byte).0.wf(),
        line.after_byte(byte).1 != Effect::Shown ==> line.after_byte(byte).0.text == line.text,
{
}

/// What is typed stands between what was before the cursor and what was behind it,
/// and the cursor stands behind it; erasing takes out the one character before the
/// cursor, and leaves the rest as it was.
pub proof fn law_typing_and_erasing_keep_the_rest(line: Line, s: Seq<char>)
    requires
        line.wf(),
    ensures
        line.typed(s).text.len() == line.text.len() + s.len(),
        line.typed(s).text.take(line.cursor) == line.text.take(line.cursor),
        line.typed(s).text.subrange(line.cursor, line.cursor + s.len()) == s,
        line.typed(s).text.skip(line.cursor + s.len()) == line.text.skip(line.cursor),
        line.typed(s).cursor == line.cursor + s.len(),
        line.cursor > 0 ==> line.erased().text == line.text.take(line.cursor - 1) + line.text.skip(
            line.cursor,
        ),
        line.cursor > 0 ==> line.erased().cursor == line.cursor - 1,
{
    let t = line.typed(s).text;
    assert(t.take(line.cursor) =~= line.text.take(line.cursor));
    assert(t.subrange(line.cursor, line.cursor + s.len()) =~= s);
    assert(t.skip(line.cursor + s.len()) =~= line.text.skip(line.cursor));
    if line.cursor > 0 {
        assert(line.erased().text =~= line.text.take(line.cursor - 1) + line.text.skip(
            line.cursor,
        ));
    }
}

/// The single editing keys, on a line with no key half read: Enter ends the line,
/// Backspace erases before the cursor if there is something to erase, Ctrl-D ends an
/// empty line and no other, and Ctrl-U empties it.
pub proof fn law_editing_keys(line: Line)
    requires
        line.wf(),
        line.pending.len() == 0,
    ensures
        line.after_byte(0x0a).1 == Effect::Ended && line.after_byte(0x0a).0.text == line.text,
        line.after_byte(0x0d).1 == Effect::Ended && line.after_byte(0x0d).0.text == line.text,
        line.cursor > 0 ==> line.after_byte(0x7f).0.text == line.text.remove(line.cursor - 1)
            && line.after_byte(0x08).0.text == line.text.remove(line.cursor - 1)
            && line.after_byte(0x7f).0.cursor == line.cursor - 1 && line.after_byte(0x08).0.cursor
            == line.cursor - 1,
        line.cursor == 0 ==> line.after_byte(0x7f).0.text == line.text && line.after_byte(
            0x08,
        ).0.text == line.text,
        line.after_byte(0x04).1 == Effect::Ended <==> line.text.len() == 0,
        line.after_byte(0x04).0.text == line.text,
        line.after_byte(0x15).0.text.len() == 0 && line.after_byte(0x15).0.cursor == 0,
        line.after_byte(0x15).1 == Effect::Shown,
{
    assert(line.pending.push(0x0au8).len() == 1);
    assert(line.pending.push(0x0du8).len() == 1);
    assert(line.pending.push(0x7fu8).len() == 1);
    assert(line.pending.push(0x08u8).len() == 1);
    assert(line.pending.push(0x04u8).len() == 1);
    assert(line.pending.push(0x15u8).len() == 1);
}

/// The arrows move the cursor by one character, as far as the text goes, and Home and
/// End to its two ends; none of them changes the text.
pub proof fn law_the_cursor_moves(line: Line, key: u8)
    requires
        line.wf(),
        line.pending.len() == 0,
    ensures
        ({
            let moved = line.after_bytes(seq![0x1bu8, 0x5b, key]);
            &&& moved.text == line.text
            &&& moved.pending.len() == 0
            &&& key == 0x44 ==> moved.cursor == (if line.cursor > 0 {
                line.cursor - 1
            } else {
                0
            })
            &&& key == 0x43 ==> moved.cursor == (if line.cursor < line.text.len() {
                line.cursor + 1
            } else {
                line.cursor
            })
            &&& key == 0x48 ==> moved.cursor == 0
            &&& key == 0x46 ==> moved.cursor == line.text.len()
            &&& key != 0x44 && key != 0x43 && key != 0x48 && key != 0x46 ==> moved.cursor
                == line.cursor
        }),
{
    let keys = seq![0x1bu8, 0x5b, key];
    lemma_partial_key(line, keys, 2);
    assert(keys.drop_last() =~= keys.take(2));
    assert(keys.take(2).push(keys.last()) =~= keys);
}

/// The line is drawn from the start of its row: the prompt, the whole text, and
/// nothing left behind it; the cursor is moved back over what stands behind it, by as
/// many columns as that takes up, and not at all where that takes up none.
pub proof fn law_the_whole_line_is_drawn(line: Line, prompt: Seq<char>)
    ensures
        ({
            let row = seq!['\r'] + prompt + line.text + seq!['\x1b', '[', 'K'];
            let back = text_columns(line.text.skip(line.cursor));
            &&& back == 0 ==> line.drawn(prompt) == row
            &&& back > 0 ==> line.drawn(prompt) == row + seq!['\x1b', '['] + decimal(back as nat)
                + seq!['D']
        }),
{
    reveal_strlit("\r");
    reveal_strlit("\x1b[K");
    reveal_strlit("\x1b[");
    reveal_strlit("D");
    assert("\r"@ =~= seq!['\r']);
    assert("\x1b[K"@ =~= seq!['\x1b', '[', 'K']);
    assert("\x1b["@ =~= seq!['\x1b', '[']);
    assert("D"@ =~= seq!['D']);
}

} // verus!
