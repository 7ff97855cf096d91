//! Text as a sequence of characters: trimming, splitting, searching, joining
//! and the few conversions the rest of the library needs.

use vstd::prelude::*;

verus! {

/// Appends one character, as `String::push` documents.
pub assume_specification[ String::push ](s: &mut String, c: char)
    ensures
        final(s)@ == old(s)@.push(c),
;

/// What `str::to_lowercase` gives for a text.
pub uninterp spec fn lowercased(s: Seq<char>) -> Seq<char>;

/// The character an ASCII capital is lowered to; any other one is kept.
pub open spec fn ascii_lower(c: char) -> char {
    if 'A' <= c <= 'Z' {
        ((c as u32) + 32) as char
    } else {
        c
    }
}

/// Calls `str::to_lowercase`. What it does to the whole of Unicode is only
/// named; of an ASCII text it lowers the capitals and keeps the rest.
#[verifier::external_body]
pub(crate) fn to_lowercase(s: &str) -> (r: String)
    ensures
        r@ == lowercased(s@),
        vstd::utf8::is_ascii_chars(s@) ==> r@ == s@.map_values(|c: char| ascii_lower(c)),
{
    s.to_lowercase()
}

/// A class of characters that text is trimmed of or split at.
#[derive(Clone, Copy, PartialEq, Eq, Structural, Debug)]
pub enum Class {
    /// The characters with Unicode's `White_Space` property.
    White,
    /// White space and the comma.
    Separator,
    /// `^`.
    Caret,
    /// `#`.
    Hash,
    /// Carriage return and line feed.
    LineEnd,
}

impl Class {
    /// Whether `c` belongs to the class.
    pub open spec fn has(self, c: char) -> bool {
        match self {
            Class::White => white_space(c),
            Class::Separator => white_space(c) || c == ',',
            Class::Caret => c == '^',
            Class::Hash => c == '#',
            Class::LineEnd => c == '\r' || c == '\n',
        }
    }

    /// Whether `c` belongs to the class.
    pub fn contains(self, c: char) -> (r: bool)
        ensures
            r == self.has(c),
    {
        match self {
            Class::White => is_white_space(c),
            Class::Separator => is_white_space(c) || c == ',',
            Class::Caret => c == '^',
            Class::Hash => c == '#',
            Class::LineEnd => c == '\r' || c == '\n',
        }
    }
}

/// Unicode's `White_Space` property.
pub open spec fn white_space(c: char) -> bool {
    ||| '\u{9}' <= c <= '\u{d}'
    ||| c == ' '
    ||| c == '\u{85}'
    ||| c == '\u{a0}'
    ||| c == '\u{1680}'
    ||| '\u{2000}' <= c <= '\u{200a}'
    ||| c == '\u{2028}'
    ||| c == '\u{2029}'
    ||| c == '\u{202f}'
    ||| c == '\u{205f}'
    ||| c == '\u{3000}'
}

/// Whether `c` has Unicode's `White_Space` property.
pub fn is_white_space(c: char) -> (r: bool)
    ensures
        r == white_space(c),
{
    ('\u{9}' <= c && c <= '\u{d}') || c == ' ' || c == '\u{85}' || c == '\u{a0}' || c == '\u{1680}'
        || ('\u{2000}' <= c && c <= '\u{200a}') || c == '\u{2028}' || c == '\u{2029}' || c
        == '\u{202f}' || c == '\u{205f}' || c == '\u{3000}'
}

/// The characters of a text.
pub fn chars_of(s: &str) -> (r: Vec<char>)
    ensures
        r@ == s@,
{
    let mut out: Vec<char> = Vec::new();
    for c in it: s.chars()
        invariant
            out@ == s@.take(it.index()),
            it.seq() == s@,
    {
        proof {
            assert(s@.take(it.index() + 1) == s@.take(it.index()).push(c));
        }
        out.push(c);
    }
    assert(s@.take(s@.len() as int) == s@);
    out
}

/// The text made of the given characters.
pub fn string_of(cs: &[char]) -> (r: String)
    ensures
        r@ == cs@,
{
    let mut out = String::new();
    let mut i: usize = 0;
    while i < cs.len()
        invariant
            i <= cs@.len(),
            out@ == cs@.take(i as int),
        decreases cs@.len() - i,
    {
        out.push(cs[i]);
        i += 1;
        assert(cs@.take(i as int) == cs@.take(i - 1).push(cs@[i - 1]));
    }
    assert(cs@.take(i as int) == cs@);
    out
}

/// Whether two texts hold the same characters.
pub fn same(a: &str, b: &str) -> (r: bool)
    ensures
        r == (a@ == b@),
{
    let x = chars_of(a);
    let y = chars_of(b);
    same_chars(&x, &y)
}

fn same_chars(x: &Vec<char>, y: &Vec<char>) -> (r: bool)
    ensures
        r == (x@ == y@),
{
    if x.len() != y.len() {
        return false;
    }
    let mut i: usize = 0;
    while i < x.len()
        invariant
            i <= x@.len(),
            x@.len() == y@.len(),
            forall|k: int| 0 <= k < i ==> x@[k] == y@[k],
        decreases x@.len() - i,
    {
        if x[i] != y[i] {
            return false;
        }
        i += 1;
    }
    assert(x@ =~= y@);
    true
}

/// The text without the leading characters of a class.
pub open spec fn trim_start_of(s: Seq<char>, class: Class) -> Seq<char>
    decreases s.len(),
{
    if s.len() > 0 && class.has(s[0]) {
        trim_start_of(s.skip(1), class)
    } else {
        s
    }
}

/// The text without the trailing characters of a class.
pub open spec fn trim_end_of(s: Seq<char>, class: Class) -> Seq<char>
    decreases s.len(),
{
    if s.len() > 0 && class.has(s.last()) {
        trim_end_of(s.drop_last(), class)
    } else {
        s
    }
}

/// The text without white space at either end.
pub open spec fn trimmed(s: Seq<char>) -> Seq<char> {
    trim_end_of(trim_start_of(s, Class::White), Class::White)
}

/// Drops the leading characters of a class, like `str::trim_start_matches`.
pub fn trim_start_matches(s: &str, class: Class) -> (r: &str)
    ensures
        r@ == trim_start_of(s@, class),
{
    let cs = chars_of(s);
    let mut i: usize = 0;
    assert(s@.skip(0) == s@);
    while i < cs.len() && class.contains(cs[i])
        invariant
            cs@ == s@,
            i <= cs@.len(),
            trim_start_of(s@, class) == trim_start_of(s@.skip(i as int), class),
        decreases cs@.len() - i,
    {
        i += 1;
        assert(s@.skip(i - 1).skip(1) == s@.skip(i as int));
    }
    assert(s@.skip(i as int) == s@.subrange(i as int, s@.len() as int));
    s.substring_char(i, cs.len())
}

/// Drops the trailing characters of a class, like `str::trim_end_matches`.
pub fn trim_end_matches(s: &str, class: Class) -> (r: &str)
    ensures
        r@ == trim_end_of(s@, class),
{
    let cs = chars_of(s);
    let mut j: usize = cs.len();
    assert(s@.take(j as int) == s@);
    while j > 0 && class.contains(cs[j - 1])
        invariant
            cs@ == s@,
            j <= cs@.len(),
            trim_end_of(s@, class) == trim_end_of(s@.take(j as int), class),
        decreases j,
    {
        j -= 1;
        assert(s@.take(j + 1).drop_last() == s@.take(j as int));
    }
    assert(s@.take(j as int) == s@.subrange(0, j as int));
    s.substring_char(0, j)
}

/// Drops white space at both ends, like `str::trim`.
pub fn trim(s: &str) -> (r: &str)
    ensures
        r@ == trimmed(s@),
{
    trim_end_matches(trim_start_matches(s, Class::White), Class::White)
}

/// The number of characters before the first one of a class.
pub open spec fn run_len(s: Seq<char>, class: Class) -> nat
    decreases s.len(),
{
    if s.len() == 0 || class.has(s[0]) {
        0
    } else {
        1 + run_len(s.skip(1), class)
    }
}

/// A run is no longer than the text.
pub proof fn lemma_run_len(s: Seq<char>, class: Class)
    ensures
        run_len(s, class) <= s.len(),
        run_len(s, class) < s.len() ==> class.has(s[run_len(s, class) as int]),
        forall|k: int| 0 <= k < run_len(s, class) ==> !class.has(#[trigger] s[k]),
    decreases s.len(),
{
    if s.len() == 0 || class.has(s[0]) {
    } else {
        lemma_run_len(s.skip(1), class);
        assert forall|k: int| 0 <= k < run_len(s, class) implies !class.has(#[trigger] s[k]) by {
            if k > 0 {
                assert(s[k] == s.skip(1)[k - 1]);
            }
        }
        if run_len(s, class) < s.len() {
            assert(s[run_len(s, class) as int] == s.skip(1)[run_len(s, class) - 1]);
        }
    }
}

/// Trimming the start never makes a text longer.
pub proof fn lemma_trim_start(s: Seq<char>, class: Class)
    ensures
        trim_start_of(s, class).len() <= s.len(),
        trim_start_of(s, class).len() > 0 ==> !class.has(trim_start_of(s, class)[0]),
        trim_start_of(s, class) == s.skip(s.len() - trim_start_of(s, class).len()),
    decreases s.len(),
{
    if s.len() > 0 && class.has(s[0]) {
        lemma_trim_start(s.skip(1), class);
        let t = trim_start_of(s, class);
        assert(s.skip(1).skip(s.len() - 1 - t.len()) == s.skip(s.len() - t.len()));
    } else {
        assert(s.skip(0) == s);
    }
}

/// Trimming the end keeps a prefix, up to and including each character that is
/// not of the class.
pub proof fn lemma_trim_end(s: Seq<char>, class: Class)
    ensures
        trim_end_of(s, class).len() <= s.len(),
        trim_end_of(s, class) == s.take(trim_end_of(s, class).len() as int),
        trim_end_of(s, class).len() > 0 ==> !class.has(trim_end_of(s, class).last()),
        forall|k: int|
            0 <= k < s.len() && !class.has(#[trigger] s[k]) ==> k < trim_end_of(s, class).len(),
    decreases s.len(),
{
    if s.len() > 0 && class.has(s.last()) {
        let p = s.drop_last();
        lemma_trim_end(p, class);
        let t = trim_end_of(s, class);
        assert(p.take(t.len() as int) =~= s.take(t.len() as int));
        assert forall|k: int| 0 <= k < s.len() && !class.has(#[trigger] s[k]) implies k
            < t.len() by {
            if k < p.len() {
                assert(p[k] == s[k]);
            }
        }
    } else {
        assert(s.take(s.len() as int) =~= s);
    }
}

/// Trimming the start goes no further than the first character that is not of
/// the class.
pub proof fn lemma_trim_start_stops(s: Seq<char>, class: Class, k: int)
    requires
        0 <= k < s.len(),
        !class.has(s[k]),
    ensures
        trim_start_of(s, class).len() >= s.len() - k,
    decreases s.len(),
{
    if class.has(s[0]) {
        assert(s.skip(1)[k - 1] == s[k]);
        lemma_trim_start_stops(s.skip(1), class, k - 1);
    }
}

/// Trimming keeps a stretch of a text that holds each of its characters that is
/// not white space, and neither starts nor ends with white space.
pub proof fn lemma_trimmed(s: Seq<char>) -> (r: (int, int))
    ensures
        0 <= r.0 <= r.1 <= s.len(),
        trimmed(s) == s.subrange(r.0, r.1),
        forall|k: int| 0 <= k < s.len() && !white_space(#[trigger] s[k]) ==> r.0 <= k < r.1,
        trimmed(s).len() > 0 ==> !white_space(trimmed(s)[0]) && !white_space(trimmed(s).last()),
{
    let t = trim_start_of(s, Class::White);
    let a = s.len() - t.len();
    lemma_trim_start(s, Class::White);
    lemma_trim_end(t, Class::White);
    let b = a + trimmed(s).len();
    assert(trimmed(s) =~= s.subrange(a, b));
    assert forall|k: int| 0 <= k < s.len() && !white_space(#[trigger] s[k]) implies a <= k < b by {
        lemma_trim_start_stops(s, Class::White, k);
        assert(t[k - a] == s[k]);
    }
    if trimmed(s).len() > 0 {
        assert(trimmed(s)[0] == t[0]);
    }
    (a, b)
}

/// A text that neither starts nor ends with white space is left as it is.
pub proof fn lemma_trimmed_stays(s: Seq<char>)
    requires
        s.len() > 0 ==> !white_space(s[0]) && !white_space(s.last()),
    ensures
        trimmed(s) == s,
{
}

/// Trimming a second time changes nothing.
pub proof fn lemma_trimmed_twice(s: Seq<char>)
    ensures
        trimmed(trimmed(s)) == trimmed(s),
{
    let r = lemma_trimmed(s);
    lemma_trimmed_stays(trimmed(s));
}

/// A character of the class behind a text stays, unless all of it is trimmed.
pub proof fn lemma_trim_start_push(s: Seq<char>, c: char, class: Class)
    requires
        class.has(c),
    ensures
        trim_start_of(s, class).len() > 0 ==> trim_start_of(s.push(c), class) == trim_start_of(
            s,
            class,
        ).push(c),
        trim_start_of(s, class).len() == 0 ==> trim_start_of(s.push(c), class).len() == 0,
    decreases s.len(),
{
    if s.len() == 0 {
        let p = s.push(c);
        assert(p.skip(1).len() == 0);
        assert(trim_start_of(p.skip(1), class) == p.skip(1));
    } else if class.has(s[0]) {
        lemma_trim_start_push(s.skip(1), c, class);
        assert(s.push(c).skip(1) =~= s.skip(1).push(c));
    }
}

/// White space behind a text does not matter to the trimmed text.
pub proof fn lemma_trim_blank_end(s: Seq<char>, c: char)
    requires
        white_space(c),
    ensures
        trimmed(s.push(c)) == trimmed(s),
{
    let t = trim_start_of(s, Class::White);
    let u = trim_start_of(s.push(c), Class::White);
    lemma_trim_start_push(s, c, Class::White);
    if t.len() > 0 {
        assert(t.push(c).drop_last() =~= t);
        assert(Class::White.has(t.push(c).last()));
    } else {
        assert(t =~= u);
    }
}

/// The maximal runs of characters outside a class, in order.
pub open spec fn words_of(s: Seq<char>, class: Class) -> Seq<Seq<char>>
    decreases s.len(),
{
    let t = trim_start_of(s, class);
    let n = run_len(t, class) as int;
    if n > 0 && t.len() <= s.len() && n <= t.len() {
        seq![t.take(n)] + words_of(t.skip(n), class)
    } else {
        Seq::empty()
    }
}

/// The views of a sequence of borrowed texts.
pub open spec fn strs(v: Seq<&str>) -> Seq<Seq<char>> {
    Seq::new(v.len(), |i: int| v[i]@)
}

/// The views of a sequence of texts.
pub open spec fn texts(v: Seq<String>) -> Seq<Seq<char>> {
    Seq::new(v.len(), |i: int| v[i]@)
}

/// Adding a text adds its view.
pub broadcast proof fn lemma_texts_push(v: Seq<String>, x: String)
    ensures
        #[trigger] texts(v.push(x)) == texts(v).push(x@),
{
    assert(texts(v.push(x)) =~= texts(v).push(x@));
}

/// Adding a borrowed text adds its view.
pub broadcast proof fn lemma_strs_push(v: Seq<&str>, x: &str)
    ensures
        #[trigger] strs(v.push(x)) == strs(v).push(x@),
{
    assert(strs(v.push(x)) =~= strs(v).push(x@));
}

/// Splits at the characters of a class and drops the empty pieces.
pub fn words<'a>(s: &'a str, class: Class) -> (r: Vec<&'a str>)
    ensures
        strs(r@) == words_of(s@, class),
{
    let cs = chars_of(s);
    let mut out: Vec<&'a str> = Vec::new();
    let mut i: usize = 0;
    assert(s@.skip(0) == s@);
    assert(strs(out@) + words_of(s@, class) =~= words_of(s@, class));
    while i < cs.len()
        invariant
            cs@ == s@,
            i <= cs@.len(),
            words_of(s@, class) == strs(out@) + words_of(s@.skip(i as int), class),
        decreases cs@.len() - i,
    {
        let ghost start = i as int;
        let ghost rest = s@.skip(start);
        if class.contains(cs[i]) {
            i += 1;
            proof {
                assert(rest.skip(1) == s@.skip(i as int));
                lemma_trim_start(s@.skip(i as int), class);
                assert(words_of(rest, class) == words_of(s@.skip(i as int), class));
            }
        } else {
            let mut j: usize = i;
            proof {
                assert(rest.skip(0) == rest);
            }
            while j < cs.len() && !class.contains(cs[j])
                invariant
                    cs@ == s@,
                    i <= j <= cs@.len(),
                    rest == s@.skip(i as int),
                    run_len(rest, class) == (j - i) + run_len(s@.skip(j as int), class),
                decreases cs@.len() - j,
            {
                j += 1;
                assert(s@.skip(j - 1).skip(1) == s@.skip(j as int));
            }
            let word = s.substring_char(i, j);
            proof {
                lemma_run_len(rest, class);
                assert(trim_start_of(rest, class) == rest);
                assert(run_len(s@.skip(j as int), class) == 0);
                assert(rest.take(j - i) == word@);
                assert(rest.skip(j - i) == s@.skip(j as int));
                assert(words_of(rest, class) == seq![word@] + words_of(s@.skip(j as int), class));
                lemma_strs_push(out@, word);
                assert(strs(out@) + (seq![word@] + words_of(s@.skip(j as int), class)) =~= strs(
                    out@,
                ).push(word@) + words_of(s@.skip(j as int), class));
            }
            out.push(word);
            i = j;
        }
    }
    proof {
        assert(s@.skip(i as int) =~= Seq::<char>::empty());
        assert(words_of(s@.skip(i as int), class) =~= Seq::<Seq<char>>::empty());
        assert(strs(out@) + Seq::<Seq<char>>::empty() =~= strs(out@));
    }
    out
}

/// Whether `pat` stands in `s` from position `i` on.
pub open spec fn occurs_at(s: Seq<char>, pat: Seq<char>, i: int) -> bool {
    0 <= i && i + pat.len() <= s.len() && s.subrange(i, i + pat.len()) == pat
}

/// Whether `s` begins with `pat`.
pub open spec fn starts_with_of(s: Seq<char>, pat: Seq<char>) -> bool {
    occurs_at(s, pat, 0)
}

/// The first position at or after `i` where `pat` stands in `s`.
pub open spec fn find_from(s: Seq<char>, pat: Seq<char>, i: int) -> Option<int>
    decreases s.len() + 1 - i,
{
    if i < 0 || i + pat.len() > s.len() {
        None
    } else if occurs_at(s, pat, i) {
        Some(i)
    } else {
        find_from(s, pat, i + 1)
    }
}

/// The first position where `pat` stands in `s`.
pub open spec fn find_of(s: Seq<char>, pat: Seq<char>) -> Option<int> {
    find_from(s, pat, 0)
}

/// The last position at or before `i` where `pat` stands in `s`.
pub open spec fn rfind_from(s: Seq<char>, pat: Seq<char>, i: int) -> Option<int>
    decreases i + 1,
{
    if i < 0 {
        None
    } else if occurs_at(s, pat, i) {
        Some(i)
    } else {
        rfind_from(s, pat, i - 1)
    }
}

/// The last position where `pat` stands in `s`.
pub open spec fn rfind_of(s: Seq<char>, pat: Seq<char>) -> Option<int> {
    rfind_from(s, pat, s.len() - pat.len())
}

/// What `find_from` finds is an occurrence, and the first one.
pub proof fn lemma_find_from(s: Seq<char>, pat: Seq<char>, i: int)
    requires
        0 <= i,
    ensures
        match find_from(s, pat, i) {
            Some(k) => i <= k && occurs_at(s, pat, k) && forall|m: int|
                i <= m < k ==> !#[trigger] occurs_at(s, pat, m),
            None => forall|m: int| i <= m ==> !#[trigger] occurs_at(s, pat, m),
        },
    decreases s.len() + 1 - i,
{
    if i + pat.len() > s.len() || occurs_at(s, pat, i) {
    } else {
        lemma_find_from(s, pat, i + 1);
    }
}

/// What `rfind_from` finds is an occurrence, and the last one.
pub proof fn lemma_rfind_from(s: Seq<char>, pat: Seq<char>, i: int)
    ensures
        match rfind_from(s, pat, i) {
            Some(k) => 0 <= k <= i && occurs_at(s, pat, k) && forall|m: int|
                k < m <= i ==> !#[trigger] occurs_at(s, pat, m),
            None => forall|m: int| m <= i ==> !#[trigger] occurs_at(s, pat, m),
        },
    decreases i + 1,
{
    if i < 0 || occurs_at(s, pat, i) {
    } else {
        lemma_rfind_from(s, pat, i - 1);
    }
}

/// The first occurrence of a character is where it is found.
pub proof fn lemma_first_char(s: Seq<char>, c: char, pos: int)
    requires
        0 <= pos < s.len(),
        s[pos] == c,
        forall|m: int| 0 <= m < pos ==> #[trigger] s[m] != c,
    ensures
        find_of(s, seq![c]) == Some(pos),
{
    let pat = seq![c];
    assert(s.subrange(pos, pos + 1) =~= pat);
    assert(occurs_at(s, pat, pos));
    lemma_find_from(s, pat, 0);
    match find_of(s, pat) {
        Some(k) => {
            assert(s.subrange(k, k + 1)[0] == s[k]);
        },
        None => {},
    }
}

fn pattern_at(cs: &Vec<char>, pat: &Vec<char>, i: usize) -> (r: bool)
    requires
        i + pat@.len() <= cs@.len(),
    ensures
        r == occurs_at(cs@, pat@, i as int),
{
    let mut k: usize = 0;
    let n: usize = cs.len();
    while k < pat.len()
        invariant
            k <= pat@.len(),
            n == cs@.len(),
            i + pat@.len() <= cs@.len(),
            forall|m: int| 0 <= m < k ==> cs@[i + m] == pat@[m],
        decreases pat@.len() - k,
    {
        if cs[i + k] != pat[k] {
            assert(cs@.subrange(i as int, i + pat@.len())[k as int] != pat@[k as int]);
            return false;
        }
        k += 1;
    }
    assert(cs@.subrange(i as int, i + pat@.len()) =~= pat@);
    true
}

/// Whether a text begins with `pat`.
pub fn starts_with(s: &str, pat: &str) -> (r: bool)
    ensures
        r == starts_with_of(s@, pat@),
{
    let cs = chars_of(s);
    let ps = chars_of(pat);
    if ps.len() > cs.len() {
        return false;
    }
    pattern_at(&cs, &ps, 0)
}

/// The character position of the first occurrence of `pat`.
pub fn find(s: &str, pat: &str) -> (r: Option<usize>)
    ensures
        match r {
            Some(i) => find_of(s@, pat@) == Some(i as int) && i + pat@.len() <= s@.len()
                <= usize::MAX,
            None => find_of(s@, pat@) is None,
        },
{
    let cs = chars_of(s);
    let ps = chars_of(pat);
    if ps.len() > cs.len() {
        return None;
    }
    let last: usize = cs.len() - ps.len();
    let mut i: usize = 0;
    loop
        invariant
            cs@ == s@,
            ps@ == pat@,
            last == s@.len() - pat@.len(),
            s@.len() <= usize::MAX,
            i <= last,
            find_of(s@, pat@) == find_from(s@, pat@, i as int),
        decreases last - i,
    {
        if pattern_at(&cs, &ps, i) {
            return Some(i);
        }
        if i == last {
            assert(find_from(s@, pat@, i + 1) is None);
            return None;
        }
        i += 1;
    }
}

/// The character position of the last occurrence of `pat`.
pub fn rfind(s: &str, pat: &str) -> (r: Option<usize>)
    ensures
        match r {
            Some(i) => rfind_of(s@, pat@) == Some(i as int) && i + pat@.len() <= s@.len()
                <= usize::MAX,
            None => rfind_of(s@, pat@) is None,
        },
{
    let cs = chars_of(s);
    let ps = chars_of(pat);
    if ps.len() > cs.len() {
        return None;
    }
    let mut i: usize = cs.len() - ps.len();
    loop
        invariant
            cs@ == s@,
            ps@ == pat@,
            i + pat@.len() <= s@.len() <= usize::MAX,
            rfind_of(s@, pat@) == rfind_from(s@, pat@, i as int),
        decreases i,
    {
        if pattern_at(&cs, &ps, i) {
            return Some(i);
        }
        if i == 0 {
            assert(rfind_from(s@, pat@, i - 1) is None);
            return None;
        }
        i -= 1;
    }
}

/// Whether `pat` occurs anywhere in `s`.
pub open spec fn contains_of(s: Seq<char>, pat: Seq<char>) -> bool {
    exists|i: int| occurs_at(s, pat, i)
}

/// Whether `pat` occurs anywhere in a text.
pub fn contains(s: &str, pat: &str) -> (r: bool)
    ensures
        r == contains_of(s@, pat@),
{
    proof {
        lemma_find_from(s@, pat@, 0);
    }
    match find(s, pat) {
        Some(i) => {
            assert(occurs_at(s@, pat@, i as int));
            true
        },
        None => {
            assert forall|i: int| !occurs_at(s@, pat@, i) by {
                if 0 <= i {
                    assert(!occurs_at(s@, pat@, i));
                }
            }
            false
        },
    }
}

/// The part of a text before a character position.
pub fn head(s: &str, end: usize) -> (r: &str)
    requires
        end <= s@.len(),
    ensures
        r@ == s@.take(end as int),
{
    assert(s@.take(end as int) == s@.subrange(0, end as int));
    s.substring_char(0, end)
}

/// The part of a text from a character position on.
pub fn tail(s: &str, start: usize) -> (r: &str)
    requires
        start <= s@.len(),
    ensures
        r@ == s@.skip(start as int),
{
    let n: usize = s.unicode_len();
    assert(s@.skip(start as int) == s@.subrange(start as int, s@.len() as int));
    s.substring_char(start, n)
}

/// A line without the carriage return of a `\r\n` ending.
pub open spec fn strip_cr(s: Seq<char>) -> Seq<char> {
    if s.len() > 0 && s.last() == '\r' {
        s.drop_last()
    } else {
        s
    }
}

/// The lines of a text: ended by `\n` or `\r\n`, the last ending optional.
pub open spec fn lines_of(s: Seq<char>) -> Seq<Seq<char>>
    decreases s.len(),
{
    if s.len() == 0 {
        Seq::empty()
    } else {
        match find_of(s, seq!['\n']) {
            Some(i) if 0 <= i < s.len() => seq![strip_cr(s.take(i))] + lines_of(s.skip(i + 1)),
            _ => seq![s],
        }
    }
}

/// The lines of a text, like `str::lines`.
pub fn lines<'a>(s: &'a str) -> (r: Vec<&'a str>)
    ensures
        strs(r@) == lines_of(s@),
{
    let mut out: Vec<&'a str> = Vec::new();
    let mut rest: &'a str = s;
    assert(strs(out@) + lines_of(s@) =~= lines_of(s@));
    while !rest.is_empty()
        invariant
            lines_of(s@) == strs(out@) + lines_of(rest@),
        decreases rest@.len(),
    {
        let ghost before = rest@;
        let ghost done = out@;
        proof {
            reveal_strlit("\n");
            assert("\n"@ =~= seq!['\n']);
        }
        match find(rest, "\n") {
            Some(i) => {
                let line = head(rest, i);
                let line = strip_carriage_return(line);
                proof {
                    lemma_strs_push(done, line);
                    assert(strs(done) + (seq![line@] + lines_of(before.skip(i + 1))) =~= strs(
                        done,
                    ).push(line@) + lines_of(before.skip(i + 1)));
                }
                out.push(line);
                rest = tail(rest, i + 1);
            },
            None => {
                proof {
                    lemma_strs_push(done, rest);
                    assert(strs(done) + seq![rest@] =~= strs(done).push(rest@));
                }
                out.push(rest);
                return out;
            },
        }
    }
    assert(strs(out@) + Seq::<Seq<char>>::empty() =~= strs(out@));
    out
}

fn strip_carriage_return(s: &str) -> (r: &str)
    ensures
        r@ == strip_cr(s@),
{
    let n: usize = s.unicode_len();
    if n > 0 && s.get_char(n - 1) == '\r' {
        assert(s@.drop_last() =~= s@.take(n - 1));
        head(s, n - 1)
    } else {
        s
    }
}

/// The pieces of a text between the occurrences of a non-empty pattern.
pub open spec fn pieces_of(s: Seq<char>, pat: Seq<char>) -> Seq<Seq<char>>
    decreases s.len(),
{
    match find_of(s, pat) {
        Some(i) if 0 < pat.len() && 0 <= i && i + pat.len() <= s.len() => seq![s.take(i)]
            + pieces_of(s.skip(i + pat.len()), pat),
        _ => seq![s],
    }
}

/// Splits at every occurrence of a non-empty pattern, like `str::split`.
pub fn pieces<'a>(s: &'a str, pat: &str) -> (r: Vec<&'a str>)
    requires
        pat@.len() > 0,
    ensures
        strs(r@) == pieces_of(s@, pat@),
{
    let width: usize = pat.unicode_len();
    let mut out: Vec<&'a str> = Vec::new();
    let mut rest: &'a str = s;
    assert(strs(out@) + pieces_of(s@, pat@) =~= pieces_of(s@, pat@));
    loop
        invariant
            width == pat@.len(),
            width > 0,
            pieces_of(s@, pat@) == strs(out@) + pieces_of(rest@, pat@),
        decreases rest@.len(),
    {
        let ghost before = rest@;
        let ghost done = out@;
        match find(rest, pat) {
            Some(i) => {
                let piece = head(rest, i);
                proof {
                    lemma_strs_push(done, piece);
                    assert(strs(done) + (seq![piece@] + pieces_of(before.skip(i + width), pat@))
                        =~= strs(done).push(piece@) + pieces_of(before.skip(i + width), pat@));
                }
                out.push(piece);
                rest = tail(rest, i + width);
            },
            None => {
                proof {
                    lemma_strs_push(done, rest);
                    assert(strs(done) + seq![rest@] =~= strs(done).push(rest@));
                }
                out.push(rest);
                return out;
            },
        }
    }
}

/// The texts one after the other, with `sep` between them.
pub open spec fn joined(parts: Seq<Seq<char>>, sep: Seq<char>) -> Seq<char>
    decreases parts.len(),
{
    if parts.len() == 0 {
        Seq::empty()
    } else if parts.len() == 1 {
        parts[0]
    } else {
        joined(parts.drop_last(), sep) + sep + parts.last()
    }
}

/// Joins texts with a separator.
pub fn join(parts: &[String], sep: &str) -> (r: String)
    ensures
        r@ == joined(texts(parts@), sep@),
{
    let mut out = String::new();
    let mut i: usize = 0;
    while i < parts.len()
        invariant
            i <= parts@.len(),
            out@ == joined(texts(parts@).take(i as int), sep@),
        decreases parts@.len() - i,
    {
        if i > 0 {
            out.append(sep);
        }
        out.append(parts[i].as_str());
        i += 1;
        proof {
            let now = texts(parts@).take(i as int);
            assert(now.drop_last() =~= texts(parts@).take(i - 1));
            assert(now.last() == parts@[i - 1]@);
            assert(now.len() == 1 ==> now[0] == parts@[0]@);
            assert(Seq::<char>::empty() + parts@[i - 1]@ =~= parts@[i - 1]@);
        }
    }
    assert(texts(parts@).take(i as int) =~= texts(parts@));
    out
}

/// Joins borrowed texts with a separator.
pub fn join_strs(parts: &[&str], sep: &str) -> (r: String)
    ensures
        r@ == joined(strs(parts@), sep@),
{
    let mut out = String::new();
    let mut i: usize = 0;
    while i < parts.len()
        invariant
            i <= parts@.len(),
            out@ == joined(strs(parts@).take(i as int), sep@),
        decreases parts@.len() - i,
    {
        if i > 0 {
            out.append(sep);
        }
        out.append(parts[i]);
        i += 1;
        proof {
            let now = strs(parts@).take(i as int);
            assert(now.drop_last() =~= strs(parts@).take(i - 1));
            assert(now.last() == parts@[i - 1]@);
            assert(now.len() == 1 ==> now[0] == parts@[0]@);
            assert(Seq::<char>::empty() + parts@[i - 1]@ =~= parts@[i - 1]@);
        }
    }
    assert(strs(parts@).take(i as int) =~= strs(parts@));
    out
}

/// The character of a decimal digit.
pub open spec fn digit_char(d: nat) -> char {
    (('0' as u32) + d) as char
}

/// A number in decimal.
pub open spec fn decimal(n: nat) -> Seq<char>
    decreases n,
{
    if n < 10 {
        seq![digit_char(n)]
    } else {
        decimal(n / 10).push(digit_char(n % 10))
    }
}

fn digit_of(d: u64) -> (r: char)
    requires
        d < 10,
    ensures
        r == digit_char(d as nat),
{
    let b: u8 = 48u8 + d as u8;
    b as char
}

/// Writes a number in decimal.
pub fn number_text(n: u64) -> (r: String)
    ensures
        r@ == decimal(n as nat),
    decreases n,
{
    if n < 10 {
        let mut out = String::new();
        out.push(digit_of(n));
        assert(out@ =~= seq![digit_char(n as nat)]);
        out
    } else {
        let mut out = number_text(n / 10);
        out.push(digit_of(n % 10));
        out
    }
}

/// Whether `c` is one of `0` to `9`.
pub open spec fn is_digit(c: char) -> bool {
    '0' <= c <= '9'
}

/// Whether every character is a digit.
pub open spec fn all_digits(s: Seq<char>) -> bool {
    forall|i: int| 0 <= i < s.len() ==> is_digit(#[trigger] s[i])
}

/// The number that a sequence of digits writes in decimal.
pub open spec fn digits_value(s: Seq<char>) -> nat
    decreases s.len(),
{
    if s.len() == 0 {
        0
    } else {
        digits_value(s.drop_last()) * 10 + (s.last() as nat - '0' as nat) as nat
    }
}

/// The number a text spells: an optional `+` and at least one digit, nothing
/// else, and a value that fits.
pub open spec fn number_of(s: Seq<char>) -> Option<usize> {
    let digits = if s.len() > 0 && s[0] == '+' {
        s.skip(1)
    } else {
        s
    };
    if digits.len() > 0 && all_digits(digits) && digits_value(digits) <= usize::MAX {
        Some(digits_value(digits) as usize)
    } else {
        None
    }
}

/// A prefix of digits is worth no more than the whole.
proof fn lemma_digits_value_prefix(s: Seq<char>, i: int)
    requires
        0 <= i <= s.len(),
    ensures
        digits_value(s.take(i)) <= digits_value(s),
    decreases s.len() - i,
{
    if i == s.len() {
        assert(s.take(i) =~= s);
    } else {
        lemma_digits_value_prefix(s, i + 1);
        assert(s.take(i + 1).drop_last() =~= s.take(i));
    }
}

/// Reads a number the way `str::parse::<usize>` does.
pub fn parse_number(s: &str) -> (r: Option<usize>)
    ensures
        r == number_of(s@),
{
    let cs = chars_of(s);
    let start: usize = if cs.len() > 0 && cs[0] == '+' {
        1
    } else {
        0
    };
    let ghost digits = s@.skip(start as int);
    assert(start == 0 ==> digits =~= s@);
    if start == cs.len() {
        return None;
    }
    let mut value: usize = 0;
    let mut i: usize = start;
    assert(digits.take(0) =~= Seq::<char>::empty());
    while i < cs.len()
        invariant
            cs@ == s@,
            start <= i <= cs@.len(),
            digits == s@.skip(start as int),
            digits.len() > 0,
            number_of(s@) == (if all_digits(digits) && digits_value(digits) <= usize::MAX {
                Some(digits_value(digits) as usize)
            } else {
                None
            }),
            all_digits(digits.take(i - start)),
            value == digits_value(digits.take(i - start)),
        decreases cs@.len() - i,
    {
        let c = cs[i];
        assert(c == digits[i - start]);
        if c < '0' || c > '9' {
            return None;
        }
        let d: usize = (c as u32 - '0' as u32) as usize;
        proof {
            assert(digits.take(i - start + 1).drop_last() =~= digits.take(i - start));
            assert(digits.take(i - start + 1).last() == c);
            lemma_digits_value_prefix(digits, i - start + 1);
        }
        match value.checked_mul(10) {
            Some(v) => match v.checked_add(d) {
                Some(w) => {
                    value = w;
                },
                None => {
                    return None;
                },
            },
            None => {
                return None;
            },
        }
        proof {
            assert forall|k: int| 0 <= k < i - start + 1 implies is_digit(
                #[trigger] digits.take(i - start + 1)[k],
            ) by {
                if k < i - start {
                    assert(digits.take(i - start)[k] == digits[k]);
                }
            }
        }
        i += 1;
    }
    assert(digits.take(i - start) =~= digits);
    Some(value)
}

/// Whether every character of a text is a digit.
pub fn is_all_digits(s: &str) -> (r: bool)
    ensures
        r == all_digits(s@),
{
    let cs = chars_of(s);
    let mut i: usize = 0;
    while i < cs.len()
        invariant
            cs@ == s@,
            i <= cs@.len(),
            forall|k: int| 0 <= k < i ==> is_digit(#[trigger] s@[k]),
        decreases cs@.len() - i,
    {
        if cs[i] < '0' || cs[i] > '9' {
            assert(!is_digit(s@[i as int]));
            return false;
        }
        i += 1;
    }
    true
}

/// Whether `a` comes strictly before `b`, character by character.
pub open spec fn text_before(a: Seq<char>, b: Seq<char>) -> bool
    decreases a.len(),
{
    if b.len() == 0 {
        false
    } else if a.len() == 0 {
        true
    } else if a[0] == b[0] {
        text_before(a.skip(1), b.skip(1))
    } else {
        a[0] < b[0]
    }
}

/// Whether a text comes strictly before another one.
pub fn is_before(a: &str, b: &str) -> (r: bool)
    ensures
        r == text_before(a@, b@),
{
    let x = chars_of(a);
    let y = chars_of(b);
    let mut i: usize = 0;
    assert(a@.skip(0) == a@ && b@.skip(0) == b@);
    while i < x.len() && i < y.len()
        invariant
            x@ == a@,
            y@ == b@,
            i <= x@.len(),
            i <= y@.len(),
            text_before(a@, b@) == text_before(a@.skip(i as int), b@.skip(i as int)),
        decreases x@.len() - i,
    {
        if x[i] != y[i] {
            return x[i] < y[i];
        }
        i += 1;
        assert(a@.skip(i - 1).skip(1) == a@.skip(i as int));
        assert(b@.skip(i - 1).skip(1) == b@.skip(i as int));
    }
    i < y.len()
}

/// The order of texts is total: one comes first or they are equal.
pub proof fn lemma_text_before_total(a: Seq<char>, b: Seq<char>)
    ensures
        text_before(a, b) || text_before(b, a) || a == b,
        !(text_before(a, b) && text_before(b, a)),
        a == b ==> !text_before(a, b),
    decreases a.len(),
{
    if a.len() > 0 && b.len() > 0 && a[0] == b[0] {
        lemma_text_before_total(a.skip(1), b.skip(1));
        if a.skip(1) == b.skip(1) {
            assert(a =~= b) by {
                assert(a.len() == b.len());
                assert forall|i: int| 0 <= i < a.len() implies a[i] == b[i] by {
                    if i > 0 {
                        assert(a[i] == a.skip(1)[i - 1]);
                        assert(b[i] == b.skip(1)[i - 1]);
                    }
                }
            }
        }
    } else if a.len() == 0 && b.len() == 0 {
        assert(a =~= b);
    }
}

/// The order of texts is transitive.
pub proof fn lemma_text_before_transitive(a: Seq<char>, b: Seq<char>, c: Seq<char>)
    ensures
        text_before(a, b) && text_before(b, c) ==> text_before(a, c),
    decreases a.len(),
{
    if a.len() > 0 && b.len() > 0 && c.len() > 0 {
        lemma_text_before_transitive(a.skip(1), b.skip(1), c.skip(1));
    }
}

/// Whether a list of texts holds one.
pub fn list_has(list: &[String], s: &str) -> (r: bool)
    ensures
        r == texts(list@).contains(s@),
{
    let mut i: usize = 0;
    while i < list.len()
        invariant
            i <= list@.len(),
            forall|k: int| 0 <= k < i ==> list@[k]@ != s@,
        decreases list@.len() - i,
    {
        if same(list[i].as_str(), s) {
            assert(texts(list@)[i as int] == s@);
            return true;
        }
        i += 1;
    }
    assert(forall|k: int| 0 <= k < list@.len() ==> texts(list@)[k] != s@);
    false
}

/// Whether a list of borrowed texts holds one.
pub fn strs_have(list: &[&str], s: &str) -> (r: bool)
    ensures
        r == strs(list@).contains(s@),
{
    let mut i: usize = 0;
    while i < list.len()
        invariant
            i <= list@.len(),
            forall|k: int| 0 <= k < i ==> list@[k]@ != s@,
        decreases list@.len() - i,
    {
        if same(list[i], s) {
            assert(strs(list@)[i as int] == s@);
            return true;
        }
        i += 1;
    }
    assert(forall|k: int| 0 <= k < list@.len() ==> strs(list@)[k] != s@);
    false
}

/// The length of a text in UTF-8 bytes.
pub open spec fn byte_len(s: Seq<char>) -> nat {
    vstd::utf8::encode_utf8(s).len()
}

/// The length of a text in UTF-8 bytes, like `str::len`.
pub fn bytes_in(s: &str) -> (r: usize)
    ensures
        r == byte_len(s@),
{
    s.as_bytes().len()
}

/// A text, or nothing.
pub open spec fn or_empty(o: Option<String>) -> Seq<char> {
    match o {
        Some(s) => s@,
        None => Seq::empty(),
    }
}

/// The text, or an empty one.
pub fn text_or_empty(o: &Option<String>) -> (r: &str)
    ensures
        r@ == or_empty(*o),
{
    match o {
        Some(s) => s.as_str(),
        None => {
            proof {
                reveal_strlit("");
                assert(""@ =~= Seq::<char>::empty());
            }
            ""
        },
    }
}

/// Whether texts are in strictly ascending order.
pub open spec fn ascending(list: Seq<Seq<char>>) -> bool {
    forall|i: int, j: int|
        0 <= i < j < list.len() ==> text_before(#[trigger] list[i], #[trigger] list[j])
}

/// The first `max` characters of a text.
pub open spec fn clipped(s: Seq<char>, max: nat) -> Seq<char> {
    if s.len() > max {
        s.take(max as int)
    } else {
        s
    }
}

/// Cuts a text to a number of characters.
pub fn clip(s: &str, max: usize) -> (r: &str)
    ensures
        r@ == clipped(s@, max as nat),
{
    if s.unicode_len() > max {
        head(s, max)
    } else {
        s
    }
}

/// `n` spaces.
pub open spec fn blanks(n: nat) -> Seq<char> {
    Seq::new(n, |i: int| ' ')
}

/// Makes a text of `n` spaces.
pub fn spaces(n: usize) -> (r: String)
    ensures
        r@ == blanks(n as nat),
{
    let mut out = String::new();
    let mut i: usize = 0;
    while i < n
        invariant
            i <= n,
            out@ == blanks(i as nat),
        decreases n - i,
    {
        out.push(' ');
        i += 1;
        assert(blanks((i - 1) as nat).push(' ') =~= blanks(i as nat));
    }
    out
}

/// The words on both sides of a character of the class are the words of the
/// whole, in order.
pub proof fn law_words_of_both_sides(a: Seq<char>, c: char, b: Seq<char>, class: Class)
    requires
        class.has(c),
    ensures
        words_of(a.push(c) + b, class) == words_of(a, class) + words_of(b, class),
    decreases a.len(),
{
    let s = a.push(c) + b;
    if a.len() == 0 {
        assert(s.skip(1) =~= b);
        lemma_trim_start(b, class);
        assert(words_of(a, class) + words_of(b, class) =~= words_of(b, class));
    } else if class.has(a[0]) {
        let rest = a.skip(1);
        assert(s.skip(1) =~= rest.push(c) + b);
        lemma_trim_start(rest, class);
        lemma_trim_start(s.skip(1), class);
        law_words_of_both_sides(rest, c, b, class);
        assert(words_of(a, class) == words_of(rest, class));
        assert(words_of(s, class) == words_of(s.skip(1), class));
    } else {
        lemma_run_len(a, class);
        lemma_run_len_before_separator(a, c, b, class);
        let n = run_len(a, class) as int;
        let rest = a.skip(n);
        assert(s.take(n) =~= a.take(n));
        assert(s.skip(n) =~= rest.push(c) + b);
        law_words_of_both_sides(rest, c, b, class);
        assert(seq![a.take(n)] + (words_of(rest, class) + words_of(b, class)) =~= (seq![a.take(n)]
            + words_of(rest, class)) + words_of(b, class));
    }
}

proof fn lemma_run_len_before_separator(a: Seq<char>, c: char, b: Seq<char>, class: Class)
    requires
        class.has(c),
    ensures
        run_len(a.push(c) + b, class) == run_len(a, class),
    decreases a.len(),
{
    if a.len() > 0 && !class.has(a[0]) {
        lemma_run_len_before_separator(a.skip(1), c, b, class);
        assert((a.push(c) + b).skip(1) =~= a.skip(1).push(c) + b);
    }
}

proof fn lemma_run_of_all(s: Seq<char>, class: Class)
    requires
        forall|k: int| 0 <= k < s.len() ==> !class.has(#[trigger] s[k]),
    ensures
        run_len(s, class) == s.len(),
    decreases s.len(),
{
    if s.len() > 0 {
        assert forall|k: int| 0 <= k < s.skip(1).len() implies !class.has(
            #[trigger] s.skip(1)[k],
        ) by {
            assert(s.skip(1)[k] == s[k + 1]);
        }
        assert(!class.has(s[0]));
        lemma_run_of_all(s.skip(1), class);
    }
}

/// A text that holds something and nothing of the class is one word, and an empty
/// text is none.
pub proof fn law_an_unbroken_text_is_one_word(s: Seq<char>, class: Class)
    requires
        forall|k: int| 0 <= k < s.len() ==> !class.has(#[trigger] s[k]),
    ensures
        words_of(s, class) == (if s.len() == 0 {
            Seq::<Seq<char>>::empty()
        } else {
            seq![s]
        }),
{
    lemma_run_of_all(s, class);
    if s.len() > 0 {
        assert(!class.has(s[0]));
        let n = s.len() as int;
        assert(s.take(n) =~= s);
        assert(s.skip(n).len() == 0);
        assert(words_of(s.skip(n), class) =~= Seq::<Seq<char>>::empty());
        assert(words_of(s, class) =~= seq![s]);
    }
}

/// No word is empty or holds a character of the class.
pub proof fn law_words_hold_no_separator(s: Seq<char>, class: Class, i: int)
    requires
        0 <= i < words_of(s, class).len(),
    ensures
        words_of(s, class)[i].len() > 0,
        forall|k: int|
            0 <= k < words_of(s, class)[i].len() ==> !class.has(
                #[trigger] words_of(s, class)[i][k],
            ),
    decreases s.len(),
{
    let t = trim_start_of(s, class);
    lemma_trim_start(s, class);
    lemma_run_len(t, class);
    let n = run_len(t, class) as int;
    let list = words_of(s, class);
    if i == 0 {
        assert(list[0] == t.take(n));
        assert forall|k: int| 0 <= k < list[0].len() implies !class.has(#[trigger] list[0][k]) by {
            assert(list[0][k] == t[k]);
        }
    } else {
        let rest = words_of(t.skip(n), class);
        assert(list[i] == rest[i - 1]);
        law_words_hold_no_separator(t.skip(n), class, i - 1);
        assert forall|k: int| 0 <= k < list[i].len() implies !class.has(#[trigger] list[i][k]) by {
            assert(list[i][k] == rest[i - 1][k]);
        }
    }
}

/// The lines of a text are what stands before its first line break, without the
/// carriage return in front of the break, and the lines of what stands behind it.
pub proof fn law_a_break_ends_a_line(a: Seq<char>, b: Seq<char>)
    requires
        !a.contains('\n'),
    ensures
        lines_of(a.push('\n') + b) == seq![
            if a.len() > 0 && a.last() == '\r' {
                a.drop_last()
            } else {
                a
            },
        ] + lines_of(b),
        lines_of(a) == (if a.len() == 0 {
            Seq::<Seq<char>>::empty()
        } else {
            seq![a]
        }),
{
    let s = a.push('\n') + b;
    let n = a.len() as int;
    assert(s[n] == '\n');
    assert forall|m: int| 0 <= m < n implies #[trigger] s[m] != '\n' by {
        assert(a.contains(a[m]));
    }
    lemma_first_char(s, '\n', n);
    assert(s.take(n) =~= a);
    assert(s.skip(n + 1) =~= b);
    lemma_find_from(a, seq!['\n'], 0);
    if let Some(k) = find_of(a, seq!['\n']) {
        assert(a.subrange(k, k + 1)[0] == a[k]);
        assert(a.contains(a[k]));
    }
}

/// A text joined again from its pieces is the text, and the pieces at a single
/// character are free of it.
pub proof fn law_pieces_join_again(s: Seq<char>, pat: Seq<char>)
    requires
        pat.len() > 0,
    ensures
        pieces_of(s, pat).len() > 0,
        joined(pieces_of(s, pat), pat) == s,
        pat.len() == 1 ==> forall|i: int|
            0 <= i < pieces_of(s, pat).len() ==> !(#[trigger] pieces_of(s, pat)[i]).contains(
                pat[0],
            ),
    decreases s.len(),
{
    lemma_find_from(s, pat, 0);
    let list = pieces_of(s, pat);
    match find_of(s, pat) {
        Some(i) => {
            let before = s.take(i);
            let rest = s.skip(i + pat.len());
            law_pieces_join_again(rest, pat);
            assert(list == seq![before] + pieces_of(rest, pat));
            law_joined_in_order(before, pieces_of(rest, pat), pat);
            assert(s.subrange(i, i + pat.len()) == pat);
            assert(before + pat + rest =~= s);
            if pat.len() == 1 {
                assert forall|k: int| 0 <= k < list.len() implies !(#[trigger] list[k]).contains(
                    pat[0],
                ) by {
                    if k > 0 {
                        assert(list[k] == pieces_of(rest, pat)[k - 1]);
                    } else if before.contains(pat[0]) {
                        let m = choose|m: int| 0 <= m < before.len() && before[m] == pat[0];
                        assert(s.subrange(m, m + 1) =~= pat);
                        assert(occurs_at(s, pat, m));
                    }
                }
            }
        },
        None => {
            assert(list == seq![s]);
            if pat.len() == 1 && s.contains(pat[0]) {
                let m = choose|m: int| 0 <= m < s.len() && s[m] == pat[0];
                assert(s.subrange(m, m + 1) =~= pat);
                assert(occurs_at(s, pat, m));
            }
        },
    }
}

/// Joined texts are the first of them, the separator, and the others joined.
pub proof fn law_joined_in_order(first: Seq<char>, rest: Seq<Seq<char>>, sep: Seq<char>)
    ensures
        joined(seq![first], sep) == first,
        joined(Seq::<Seq<char>>::empty(), sep) == Seq::<char>::empty(),
        rest.len() > 0 ==> joined(seq![first] + rest, sep) == first + sep + joined(rest, sep),
    decreases rest.len(),
{
    let all = seq![first] + rest;
    if rest.len() == 1 {
        assert(all.drop_last() =~= seq![first]);
        assert(all.last() == rest[0]);
        assert(joined(all, sep) == joined(all.drop_last(), sep) + sep + all.last());
        assert(joined(seq![first], sep) == first);
        assert(joined(rest, sep) == rest[0]);
    } else if rest.len() > 1 {
        assert(all.drop_last() =~= seq![first] + rest.drop_last());
        assert(all.last() == rest.last());
        law_joined_in_order(first, rest.drop_last(), sep);
        assert(first + sep + joined(rest.drop_last(), sep) + sep + rest.last() =~= first + sep + (
        joined(rest.drop_last(), sep) + sep + rest.last()));
    }
}

/// A text occurs in another one exactly when that is made of something, the text,
/// and something behind it.
pub proof fn law_what_contains_a_text(s: Seq<char>, pat: Seq<char>)
    ensures
        contains_of(s, pat) <==> exists|p: Seq<char>, q: Seq<char>| s == #[trigger] (p + pat + q),
{
    if contains_of(s, pat) {
        let i = choose|i: int| occurs_at(s, pat, i);
        let p = s.take(i);
        let q = s.skip(i + pat.len());
        assert(s.subrange(i, i + pat.len()) == pat);
        assert(s =~= p + pat + q);
    }
    if exists|p: Seq<char>, q: Seq<char>| s == #[trigger] (p + pat + q) {
        let (p, q) = choose|p: Seq<char>, q: Seq<char>| s == #[trigger] (p + pat + q);
        let i = p.len() as int;
        assert(s.subrange(i, i + pat.len()) =~= pat);
        assert(occurs_at(s, pat, i));
    }
}

/// A text with something in front and something behind is contained.
pub proof fn lemma_contains(p: Seq<char>, s: Seq<char>, q: Seq<char>, all: Seq<char>)
    requires
        all =~= p + s + q,
    ensures
        contains_of(all, s),
{
    law_what_contains_a_text(all, s);
    assert(all == p + s + q);
}

/// What a contained text contains is contained.
pub proof fn lemma_contains_transitive(a: Seq<char>, b: Seq<char>, c: Seq<char>)
    requires
        contains_of(a, b),
        contains_of(b, c),
    ensures
        contains_of(a, c),
{
    let i = choose|i: int| occurs_at(a, b, i);
    let j = choose|j: int| occurs_at(b, c, j);
    assert(a.subrange(i, i + b.len()) == b);
    assert(b.subrange(j, j + c.len()) == c);
    assert(a.subrange(i + j, i + j + c.len()) =~= c) by {
        assert forall|k: int| 0 <= k < c.len() implies a[i + j + k] == c[k] by {
            assert(b.subrange(j, j + c.len())[k] == b[j + k]);
            assert(a.subrange(i, i + b.len())[j + k] == a[i + (j + k)]);
        }
    }
    assert(occurs_at(a, c, i + j));
}

/// Every number is read back from its decimal digits, with or without a `+` in
/// front.
pub proof fn law_numbers_read_back(n: usize)
    ensures
        number_of(decimal(n as nat)) == Some(n),
        number_of(seq!['+'] + decimal(n as nat)) == Some(n),
        all_digits(decimal(n as nat)),
        decimal(n as nat).len() > 0,
{
    let d = decimal(n as nat);
    lemma_decimal_digits(n as nat);
    assert(is_digit(d[0]));
    assert((seq!['+'] + d).skip(1) =~= d);
}

proof fn lemma_decimal_digits(n: nat)
    ensures
        decimal(n).len() > 0,
        forall|i: int| 0 <= i < decimal(n).len() ==> '0' <= #[trigger] decimal(n)[i] <= '9',
        digits_value(decimal(n)) == n,
    decreases n,
{
    let d = decimal(n);
    if n < 10 {
        assert(d.drop_last().len() == 0);
        assert(digits_value(d.drop_last()) == 0);
        assert(d[0] == digit_char(n));
    } else {
        lemma_decimal_digits(n / 10);
        assert(d.drop_last() =~= decimal(n / 10));
        assert(d.last() == digit_char(n % 10));
        assert forall|i: int| 0 <= i < d.len() implies '0' <= #[trigger] d[i] <= '9' by {
            if i < d.len() - 1 {
                assert(d[i] == decimal(n / 10)[i]);
            }
        }
    }
}

/// A number is read only from digits, behind an optional `+`: a text with any
/// other character, or without a digit, is none.
pub proof fn law_only_digits_are_a_number(s: Seq<char>)
    ensures
        number_of(s) is Some ==> s.len() > 0 && '0' <= s.last() <= '9',
        number_of(s) is Some ==> forall|i: int|
            1 <= i < s.len() ==> '0' <= #[trigger] s[i] <= '9',
        number_of(s) is Some ==> s[0] == '+' || '0' <= s[0] <= '9',
{
    if number_of(s) is Some {
        let digits = if s[0] == '+' {
            s.skip(1)
        } else {
            s
        };
        assert(is_digit(digits.last()));
        assert forall|i: int| 1 <= i < s.len() implies '0' <= #[trigger] s[i] <= '9' by {
            if s[0] == '+' {
                assert(is_digit(digits[i - 1]));
            } else {
                assert(is_digit(digits[i]));
            }
        }
        if s[0] != '+' {
            assert(is_digit(digits[0]));
        }
    }
}

/// Texts are ordered by the first character in which they differ, and a text
/// comes before what it is the beginning of.
pub proof fn law_texts_are_ordered_by_their_first_difference(
    common: Seq<char>,
    a: Seq<char>,
    b: Seq<char>,
)
    ensures
        a.len() == 0 ==> text_before(common + a, common + b) == (b.len() > 0),
        b.len() == 0 ==> !text_before(common + a, common + b),
        a.len() > 0 && b.len() > 0 && a[0] != b[0] ==> text_before(common + a, common + b) == (a[0]
            < b[0]),
    decreases common.len(),
{
    let x = common + a;
    let y = common + b;
    if common.len() == 0 {
        assert(x =~= a);
        assert(y =~= b);
    } else {
        law_texts_are_ordered_by_their_first_difference(common.skip(1), a, b);
        assert(x.skip(1) =~= common.skip(1) + a);
        assert(y.skip(1) =~= common.skip(1) + b);
    }
}

/// Trimming takes off white space at both ends, all of it, and nothing else.
pub proof fn law_trimming_takes_off_blanks(p: Seq<char>, s: Seq<char>, q: Seq<char>)
    requires
        forall|i: int| 0 <= i < p.len() ==> white_space(#[trigger] p[i]),
        forall|i: int| 0 <= i < q.len() ==> white_space(#[trigger] q[i]),
        s.len() > 0 ==> !white_space(s[0]) && !white_space(s.last()),
    ensures
        trimmed(p + s + q) == s,
{
    let all = p + s + q;
    let (a, b) = lemma_trimmed(all);
    let n = p.len() as int;
    let m = n + s.len();
    if s.len() > 0 {
        assert(all[n] == s[0]);
        assert(all[m - 1] == s.last());
        assert(trimmed(all)[0] == all[a]);
        assert(trimmed(all).last() == all[b - 1]);
        if a < n {
            assert(all[a] == p[a]);
        }
        if b > m {
            assert(all[b - 1] == q[b - 1 - m]);
        }
        assert(all.subrange(n, m) =~= s);
    } else {
        if trimmed(all).len() > 0 {
            assert(trimmed(all)[0] == all[a]);
            if a < n {
                assert(all[a] == p[a]);
            } else {
                assert(all[a] == q[a - n]);
            }
        }
        assert(trimmed(all) =~= s);
    }
}

/// What belongs to each class: white space, white space and the comma, the caret, the
/// hash, and the two characters that end a line.
pub proof fn law_what_belongs_to_a_class(c: char)
    ensures
        Class::White.has(c) <==> white_space(c),
        Class::Separator.has(c) <==> white_space(c) || c == ',',
        Class::Caret.has(c) <==> c == '^',
        Class::Hash.has(c) <==> c == '#',
        Class::LineEnd.has(c) <==> c == '\n' || c == '\r',
{
}

/// A number that does not fit is none, and zeros in front of a number do not count.
pub proof fn law_numbers_have_to_fit(n: nat)
    ensures
        n > usize::MAX ==> number_of(decimal(n)) is None,
        n <= usize::MAX ==> number_of(seq!['0'] + decimal(n)) == Some(n as usize),
{
    let d = decimal(n);
    lemma_decimal_digits(n);
    assert(d[0] != '+');
    let z = seq!['0'] + d;
    lemma_leading_zero(d);
    assert forall|i: int| 0 <= i < z.len() implies is_digit(#[trigger] z[i]) by {
        if i > 0 {
            assert(z[i] == d[i - 1]);
        }
    }
    assert forall|i: int| 0 <= i < d.len() implies is_digit(#[trigger] d[i]) by {
    }
}

proof fn lemma_leading_zero(d: Seq<char>)
    ensures
        digits_value(seq!['0'] + d) == digits_value(d),
    decreases d.len(),
{
    let z = seq!['0'] + d;
    if d.len() == 0 {
        assert(z.drop_last() =~= Seq::<char>::empty());
        assert(digits_value(z.drop_last()) == 0);
    } else {
        lemma_leading_zero(d.drop_last());
        assert(z.drop_last() =~= seq!['0'] + d.drop_last());
    }
}

/// A text that is cut to a length keeps its start, that many characters of it, and a
/// shorter one stays whole.
pub proof fn law_a_cut_text_keeps_its_start(s: Seq<char>, max: nat)
    ensures
        s.len() <= max ==> clipped(s, max) == s,
        s.len() > max ==> clipped(s, max) == s.take(max as int),
{
}

} // verus!
