//! The event stream a completion arrives in: lines out of chunks of bytes, and
//! the payloads of `data:` lines.

use crate::text::{
    lemma_texts_push, starts_with, starts_with_of, tail, texts, trim, trim_end_matches, trim_end_of,
    trim_start_matches, trim_start_of, trimmed, white_space, Class,
};
use vstd::prelude::*;
use vstd::utf8::{
    decode_utf8, encode_utf8, encode_utf8_decode_utf8, encode_utf8_valid_utf8, valid_utf8,
};

verus! {

/// What `String::from_utf8_lossy` makes of bytes.
pub uninterp spec fn lossy_text(bytes: Seq<u8>) -> Seq<char>;

/// Calls `String::from_utf8_lossy`. Bytes that are UTF-8 are decoded; how other
/// bytes are replaced is only named.
#[verifier::external_body]
fn from_utf8_lossy(bytes: &[u8]) -> (r: String)
    ensures
        r@ == lossy_text(bytes@),
        valid_utf8(bytes@) ==> r@ == decode_utf8(bytes@),
{
    String::from_utf8_lossy(bytes).into_owned()
}

/// The number of bytes up to and including the first line feed; none without one.
pub open spec fn line_len(b: Seq<u8>) -> Option<nat>
    decreases b.len(),
{
    if b.len() == 0 {
        None
    } else if b[0] == 10u8 {
        Some(1)
    } else {
        match line_len(b.skip(1)) {
            Some(n) => Some(n + 1),
            None => None,
        }
    }
}

/// The text of bytes: what they encode where they are UTF-8.
pub open spec fn decoded_text(b: Seq<u8>) -> Seq<char> {
    if valid_utf8(b) {
        decode_utf8(b)
    } else {
        lossy_text(b)
    }
}

/// A line as text, without its ending.
pub open spec fn line_text(b: Seq<u8>) -> Seq<char> {
    trim_end_of(decoded_text(b), Class::LineEnd)
}

/// A line that is UTF-8 is decoded, whole, and only its ending goes: whatever
/// text is sent as a line, and ended by a line feed or a carriage return and a
/// line feed, is the line that is read, unless the text ends like that itself.
pub proof fn law_a_line_is_read_as_it_was_sent(s: Seq<char>, b: Seq<u8>)
    requires
        s.len() > 0 ==> s.last() != '\n' && s.last() != '\r',
        b == encode_utf8(s.push('\n')) || b == encode_utf8(s.push('\r').push('\n')),
    ensures
        line_text(b) == s,
{
    let sent = if b == encode_utf8(s.push('\n')) {
        s.push('\n')
    } else {
        s.push('\r').push('\n')
    };
    encode_utf8_valid_utf8(sent);
    encode_utf8_decode_utf8(sent);
    let class = Class::LineEnd;
    assert(trim_end_of(s, class) == s);
    assert(s.push('\n').drop_last() =~= s);
    assert(s.push('\r').drop_last() =~= s);
    assert(s.push('\r').push('\n').drop_last() =~= s.push('\r'));
    assert(trim_end_of(s.push('\r'), class) == s);
}

/// The complete lines in a stretch of bytes.
pub open spec fn complete_lines(b: Seq<u8>) -> Seq<Seq<char>>
    decreases b.len(),
{
    match line_len(b) {
        Some(n) if 0 < n <= b.len() => seq![line_text(b.take(n as int))] + complete_lines(
            b.skip(n as int),
        ),
        _ => Seq::empty(),
    }
}

/// What follows the last complete line.
pub open spec fn partial_line(b: Seq<u8>) -> Seq<u8>
    decreases b.len(),
{
    match line_len(b) {
        Some(n) if 0 < n <= b.len() => partial_line(b.skip(n as int)),
        _ => b,
    }
}

proof fn lemma_line_len(b: Seq<u8>)
    ensures
        match line_len(b) {
            Some(n) => 0 < n <= b.len() && b[n - 1] == 10u8 && forall|k: int|
                0 <= k < n - 1 ==> #[trigger] b[k] != 10u8,
            None => forall|k: int| 0 <= k < b.len() ==> #[trigger] b[k] != 10u8,
        },
    decreases b.len(),
{
    if b.len() == 0 || b[0] == 10u8 {
    } else {
        lemma_line_len(b.skip(1));
        match line_len(b) {
            Some(n) => {
                assert(b[n - 1] == b.skip(1)[n - 2]);
                assert forall|k: int| 0 <= k < n - 1 implies #[trigger] b[k] != 10u8 by {
                    if k > 0 {
                        assert(b[k] == b.skip(1)[k - 1]);
                    }
                }
            },
            None => {
                assert forall|k: int| 0 <= k < b.len() implies #[trigger] b[k] != 10u8 by {
                    if k > 0 {
                        assert(b[k] == b.skip(1)[k - 1]);
                    }
                }
            },
        }
    }
}

/// Only the first line feed decides where the first line ends.
proof fn lemma_line_len_extend(a: Seq<u8>, b: Seq<u8>)
    ensures
        line_len(a) is Some ==> line_len(a + b) == line_len(a),
        line_len(a) is None ==> line_len(a + b) == match line_len(b) {
            Some(n) => Some(a.len() + n),
            None => None,
        },
    decreases a.len(),
{
    if a.len() == 0 {
        assert(a + b =~= b);
    } else {
        assert((a + b).skip(1) =~= a.skip(1) + b);
        lemma_line_len_extend(a.skip(1), b);
    }
}

/// Draining in between changes nothing: the lines of two chunks, and what is
/// left over, are the same whether the first chunk was drained on its own or
/// not. So a chunk boundary may fall anywhere.
pub proof fn law_chunk_boundaries_do_not_matter(a: Seq<u8>, b: Seq<u8>)
    ensures
        complete_lines(a + b) == complete_lines(a) + complete_lines(partial_line(a) + b),
        partial_line(a + b) == partial_line(partial_line(a) + b),
    decreases a.len(),
{
    lemma_line_len(a);
    lemma_line_len_extend(a, b);
    match line_len(a) {
        Some(n) => {
            let m = n as int;
            assert((a + b).take(m) =~= a.take(m));
            assert((a + b).skip(m) =~= a.skip(m) + b);
            law_chunk_boundaries_do_not_matter(a.skip(m), b);
            assert(complete_lines(a + b) =~= complete_lines(a) + complete_lines(
                partial_line(a) + b,
            ));
        },
        None => {
            assert(complete_lines(a) + complete_lines(a + b) =~= complete_lines(a + b));
        },
    }
}

/// What stays buffered holds no line feed, so nothing complete is held back.
pub proof fn law_partial_line_is_incomplete(b: Seq<u8>)
    ensures
        line_len(partial_line(b)) is None,
        complete_lines(partial_line(b)) == Seq::<Seq<char>>::empty(),
        !partial_line(b).contains(10u8),
    decreases b.len(),
{
    lemma_line_len(b);
    match line_len(b) {
        Some(n) => {
            law_partial_line_is_incomplete(b.skip(n as int));
        },
        None => {},
    }
}

/// Splits a byte stream into complete SSE lines.
///
/// Chunk boundaries fall anywhere, including mid-line and mid-UTF-8-sequence, so
/// the trailing partial line is retained until its newline arrives.
#[derive(Debug)]
pub struct SseBuffer {
    pub buf: Vec<u8>,
}

impl Default for SseBuffer {
    fn default() -> (r: Self)
        ensures
            r.buf@ == Seq::<u8>::empty(),
    {
        SseBuffer { buf: Vec::new() }
    }
}

impl SseBuffer {
    /// Takes in one chunk.
    pub fn push(&mut self, bytes: &[u8])
        ensures
            final(self).buf@ == old(self).buf@ + bytes@,
    {
        let mut i: usize = 0;
        assert(bytes@.take(0) =~= Seq::<u8>::empty());
        assert(self.buf@ + bytes@.take(0) =~= self.buf@);
        while i < bytes.len()
            invariant
                i <= bytes@.len(),
                self.buf@ == old(self).buf@ + bytes@.take(i as int),
            decreases bytes@.len() - i,
        {
            self.buf.push(bytes[i]);
            i += 1;
            assert(bytes@.take(i as int) =~= bytes@.take(i - 1).push(bytes@[i - 1]));
            assert(self.buf@ =~= old(self).buf@ + bytes@.take(i as int));
        }
        assert(bytes@.take(i as int) =~= bytes@);
    }

    /// Drains all complete lines, leaving any partial trailing line buffered.
    pub fn lines(&mut self) -> (r: Vec<String>)
        ensures
            texts(r@) == complete_lines(old(self).buf@),
            final(self).buf@ == partial_line(old(self).buf@),
    {
        let mut out: Vec<String> = Vec::new();
        let ghost all = self.buf@;
        assert(texts(out@) + complete_lines(all) =~= complete_lines(all));
        loop
            invariant
                complete_lines(all) == texts(out@) + complete_lines(self.buf@),
                partial_line(all) == partial_line(self.buf@),
            ensures
                complete_lines(all) == texts(out@),
                partial_line(all) == self.buf@,
            decreases self.buf@.len(),
        {
            let ghost before = self.buf@;
            proof {
                lemma_line_len(before);
            }
            match self.first_line() {
                Some(n) => {
                    let rest = self.buf.split_off(n);
                    let line = from_utf8_lossy(self.buf.as_slice());
                    let line = trim_end_matches(line.as_str(), Class::LineEnd).to_owned();
                    proof {
                        assert(before.subrange(0, n as int) =~= before.take(n as int));
                        assert(before.subrange(n as int, before.len() as int) =~= before.skip(
                            n as int,
                        ));
                        lemma_texts_push(out@, line);
                        assert(texts(out@) + (seq![line@] + complete_lines(before.skip(n as int)))
                            =~= texts(out@).push(line@) + complete_lines(before.skip(n as int)));
                    }
                    out.push(line);
                    self.buf = rest;
                },
                None => {
                    assert(texts(out@) + Seq::<Seq<char>>::empty() =~= texts(out@));
                    break ;
                },
            }
        }
        out
    }

    fn first_line(&self) -> (r: Option<usize>)
        ensures
            match r {
                Some(n) => line_len(self.buf@) == Some(n as nat),
                None => line_len(self.buf@) is None,
            },
    {
        let mut i: usize = 0;
        assert(self.buf@.skip(0) =~= self.buf@);
        while i < self.buf.len()
            invariant
                i <= self.buf@.len(),
                line_len(self.buf@) == match line_len(self.buf@.skip(i as int)) {
                    Some(n) => Some(n + i as nat),
                    None => None,
                },
            decreases self.buf@.len() - i,
        {
            assert(self.buf@.skip(i as int).skip(1) =~= self.buf@.skip(i + 1));
            if self.buf[i] == 10u8 {
                return Some(i + 1);
            }
            i += 1;
        }
        None
    }
}

/// The payload of a `data:` line, trimmed; none for a blank line, a comment or
/// another field.
pub open spec fn sse_payload(line: Seq<char>) -> Option<Seq<char>> {
    let line = trim_start_of(line, Class::White);
    if starts_with_of(line, "data:"@) {
        Some(trimmed(line.skip(5)))
    } else {
        None
    }
}

/// The payload of a `data:` line, if it carries one.
pub fn sse_data(line: &str) -> (r: Option<&str>)
    ensures
        match r {
            Some(s) => sse_payload(line@) == Some(s@),
            None => sse_payload(line@) is None,
        },
{
    let line = trim_start_matches(line, Class::White);
    proof {
        reveal_strlit(":");
        reveal_strlit("data:");
        assert(starts_with_of(line@, ":"@) ==> line@[0] == line@.subrange(0, 1)[0]);
        assert(starts_with_of(line@, "data:"@) ==> line@[0] == line@.subrange(0, 5)[0]);
    }
    if line.is_empty() || starts_with(line, ":") {
        return None;
    }
    if starts_with(line, "data:") {
        Some(trim(tail(line, 5)))
    } else {
        None
    }
}

/// A line feed ends a line: what stands before the first one is the first line,
/// and the lines of what stands behind it follow. Without one there is no line yet,
/// and all of it is held back.
pub proof fn law_a_line_feed_ends_a_line(a: Seq<u8>, b: Seq<u8>)
    requires
        !a.contains(10u8),
    ensures
        complete_lines(a.push(10u8) + b) == seq![line_text(a.push(10u8))] + complete_lines(b),
        partial_line(a.push(10u8) + b) == partial_line(b),
        complete_lines(a).len() == 0,
        partial_line(a) == a,
{
    let s = a.push(10u8) + b;
    let n = a.len() + 1;
    lemma_line_len(a);
    lemma_line_len(s);
    assert(s[n - 1] == 10u8);
    if let Some(m) = line_len(a) {
        assert(a.contains(a[m - 1]));
    }
    match line_len(s) {
        Some(m) => {
            if m < n {
                assert(s[m - 1] == a[m - 1]);
                assert(a.contains(a[m - 1]));
            }
            if m > n {
                assert(s[n - 1] != 10u8);
            }
        },
        None => {},
    }
    assert(s.take(n as int) =~= a.push(10u8));
    assert(s.skip(n as int) =~= b);
}

/// The payload of a line is what stands behind its `data:`, without the blanks
/// around it, whatever blanks are in front of the line. A line that starts with
/// anything else has none.
pub proof fn law_the_payload_stands_behind_data(blank: Seq<char>, rest: Seq<char>)
    requires
        forall|i: int| 0 <= i < blank.len() ==> white_space(#[trigger] blank[i]),
    ensures
        sse_payload(blank + seq!['d', 'a', 't', 'a', ':'] + rest) == Some(trimmed(rest)),
        rest.len() > 0 && !white_space(rest[0]) && !(rest.len() >= 5 && rest.take(5) == seq![
            'd',
            'a',
            't',
            'a',
            ':',
        ]) ==> sse_payload(blank + rest) is None,
        sse_payload(blank) is None,
{
    reveal_strlit("data:");
    let field = seq!['d', 'a', 't', 'a', ':'];
    assert("data:"@ =~= field);
    let line = field + rest;
    assert(blank + field + rest =~= blank + line);
    lemma_blank_start(blank, line);
    assert(line.subrange(0, 5) =~= field);
    assert(line.skip(5) =~= rest);
    if rest.len() > 0 && !white_space(rest[0]) {
        lemma_blank_start(blank, rest);
        if rest.len() >= 5 {
            assert(rest.take(5) =~= rest.subrange(0, 5));
        }
    }
    lemma_blank_start(blank, Seq::empty());
    assert(blank + Seq::<char>::empty() =~= blank);
}

proof fn lemma_blank_start(blank: Seq<char>, s: Seq<char>)
    requires
        forall|i: int| 0 <= i < blank.len() ==> white_space(#[trigger] blank[i]),
        s.len() > 0 ==> !white_space(s[0]),
    ensures
        trim_start_of(blank + s, Class::White) == s,
    decreases blank.len(),
{
    if blank.len() == 0 {
        assert(blank + s =~= s);
    } else {
        let t = blank.skip(1);
        assert forall|i: int| 0 <= i < t.len() implies white_space(#[trigger] t[i]) by {
            assert(t[i] == blank[i + 1]);
        }
        lemma_blank_start(t, s);
        assert(white_space(blank[0]));
        assert((blank + s).skip(1) =~= t + s);
    }
}

} // verus!
