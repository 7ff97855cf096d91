//! What the search and fetch tools ask for and what they answer.

use crate::html::{
    bing_hits, ddg_hits, hit_views, parse_bing, parse_ddg, text_from_html, text_in,
};
use crate::json::{
    json_views, law_a_member_is_found_by_its_key, members, object, render, rendered, text, Json,
    JsonView,
};
use crate::text::{
    contains_of, decimal, is_before, join, joined, lemma_contains, lemma_text_before_total,
    lemma_text_before_transitive, number_text, same, starts_with, starts_with_of, text_before,
    texts, trim, trimmed,
};
use crate::tools::{status_reply, status_tree};
use vstd::prelude::*;
use vstd::utf8::encode_utf8;

verus! {

/// Whether a byte stands for itself in a url.
pub open spec fn unreserved(b: u8) -> bool {
    ||| 0x41 <= b <= 0x5a
    ||| 0x61 <= b <= 0x7a
    ||| 0x30 <= b <= 0x39
    ||| b == 0x2d
    ||| b == 0x5f
    ||| b == 0x2e
    ||| b == 0x7e
}

/// A hexadecimal digit in upper case.
pub open spec fn hex_char(n: nat) -> char {
    if n < 10 {
        ('0' as nat + n) as char
    } else {
        ('A' as nat + n - 10) as char
    }
}

/// A byte as it stands in a url: itself, or a percent sign and two digits.
pub open spec fn percent(b: u8) -> Seq<char> {
    if unreserved(b) {
        seq![b as char]
    } else {
        seq!['%', hex_char(b as nat / 16), hex_char(b as nat % 16)]
    }
}

/// Bytes as they stand in a url.
pub open spec fn percents(bytes: Seq<u8>) -> Seq<char>
    decreases bytes.len(),
{
    if bytes.len() == 0 {
        Seq::empty()
    } else {
        percents(bytes.drop_last()) + percent(bytes.last())
    }
}

fn hex_digit(n: u8) -> (r: char)
    requires
        n < 16,
    ensures
        r == hex_char(n as nat),
{
    if n < 10 {
        (48 + n) as char
    } else {
        (55 + n) as char
    }
}

/// Encodes a text for the query of a url.
pub fn urlencode(s: &str) -> (r: String)
    ensures
        r@ == percents(encode_utf8(s@)),
{
    let bytes = s.as_bytes();
    let mut out = String::new();
    let mut i: usize = 0;
    assert(bytes@.take(0) =~= Seq::<u8>::empty());
    while i < bytes.len()
        invariant
            i <= bytes@.len(),
            bytes@ == encode_utf8(s@),
            out@ == percents(bytes@.take(i as int)),
        decreases bytes@.len() - i,
    {
        let b: u8 = bytes[i];
        proof {
            assert(bytes@.take(i + 1).drop_last() =~= bytes@.take(i as int));
            assert(bytes@.take(i + 1).last() == b);
        }
        let ghost before = out@;
        if (0x41 <= b && b <= 0x5a) || (0x61 <= b && b <= 0x7a) || (0x30 <= b && b <= 0x39) || b
            == 0x2d || b == 0x5f || b == 0x2e || b == 0x7e {
            out.push(b as char);
            assert(out@ =~= before + percent(b));
        } else {
            out.push('%');
            out.push(hex_digit(b / 16));
            out.push(hex_digit(b % 16));
            assert(out@ =~= before + percent(b));
        }
        i += 1;
    }
    assert(bytes@.take(i as int) =~= bytes@);
    out
}

/// The value of a hexadecimal digit.
pub open spec fn hex_value(c: char) -> nat {
    if c <= '9' {
        (c as nat - '0' as nat) as nat
    } else {
        (c as nat - 'A' as nat + 10) as nat
    }
}

/// The bytes that an encoded text stands for.
pub open spec fn decoded(s: Seq<char>) -> Seq<u8>
    decreases s.len(),
{
    if s.len() == 0 {
        Seq::empty()
    } else if s[0] == '%' && s.len() >= 3 {
        seq![(hex_value(s[1]) * 16 + hex_value(s[2])) as u8] + decoded(s.skip(3))
    } else {
        seq![s[0] as u8] + decoded(s.skip(1))
    }
}

/// Whatever is encoded can be told again from the encoded text.
pub proof fn law_encoding_loses_nothing(bytes: Seq<u8>)
    ensures
        decoded(percents(bytes)) == bytes,
{
    lemma_decoded_tail(bytes, Seq::empty());
    assert(percents(bytes) + Seq::<char>::empty() =~= percents(bytes));
    assert(bytes + decoded(Seq::empty()) =~= bytes);
}

proof fn lemma_decoded_tail(bytes: Seq<u8>, rest: Seq<char>)
    ensures
        decoded(percents(bytes) + rest) == bytes + decoded(rest),
    decreases bytes.len(),
{
    if bytes.len() == 0 {
        assert(percents(bytes) + rest =~= rest);
        assert(bytes + decoded(rest) =~= decoded(rest));
    } else {
        let b = bytes.last();
        let p = percent(b);
        let t = p + rest;
        lemma_decoded_tail(bytes.drop_last(), t);
        assert(percents(bytes) + rest =~= percents(bytes.drop_last()) + t);
        if unreserved(b) {
            assert(t.skip(1) =~= rest);
            assert(t[0] == b as char);
            assert((b as char) as u8 == b);
        } else {
            assert(t.skip(3) =~= rest);
            let hi = b as nat / 16;
            let lo = b as nat % 16;
            assert(hex_value(hex_char(hi)) == hi);
            assert(hex_value(hex_char(lo)) == lo);
        }
        assert(decoded(t) =~= seq![b] + decoded(rest));
        assert(bytes.drop_last() + (seq![b] + decoded(rest)) =~= bytes + decoded(rest));
    }
}

/// The query of a search; none if it is blank.
pub fn search_query(query: &str) -> (r: Option<&str>)
    ensures
        match r {
            Some(q) => trimmed(query@).len() > 0 && q@ == trimmed(query@),
            None => trimmed(query@).len() == 0,
        },
{
    let query = trim(query);
    if query.is_empty() {
        None
    } else {
        Some(query)
    }
}

/// The page of DuckDuckGo's html endpoint for a query.
pub fn ddg_url(query: &str) -> (r: String)
    ensures
        r@ == "https://html.duckduckgo.com/html/?q="@ + percents(encode_utf8(query@)),
{
    let mut url = "https://html.duckduckgo.com/html/?q=".to_owned();
    url.append(urlencode(query).as_str());
    url
}

/// The page of cn.bing for a query.
pub fn bing_url(query: &str) -> (r: String)
    ensures
        r@ == "https://cn.bing.com/search?q="@ + percents(encode_utf8(query@)),
{
    let mut url = "https://cn.bing.com/search?q=".to_owned();
    url.append(urlencode(query).as_str());
    url
}

/// How many hits have a title before another one.
pub open spec fn place(list: Seq<(Seq<char>, Seq<char>)>, title: Seq<char>) -> nat
    decreases list.len(),
{
    if list.len() == 0 || !text_before(list[0].0, title) {
        0
    } else {
        1 + place(list.skip(1), title)
    }
}

/// Hits by title with one more, unless its title is among them.
pub open spec fn with_hit(
    list: Seq<(Seq<char>, Seq<char>)>,
    hit: (Seq<char>, Seq<char>),
) -> Seq<(Seq<char>, Seq<char>)> {
    let p = place(list, hit.0) as int;
    if p < list.len() && list[p].0 == hit.0 {
        list
    } else {
        list.insert(p, hit)
    }
}

/// Hits by title, the first of each title.
pub open spec fn by_title(list: Seq<(Seq<char>, Seq<char>)>) -> Seq<(Seq<char>, Seq<char>)>
    decreases list.len(),
{
    if list.len() == 0 {
        Seq::empty()
    } else {
        with_hit(by_title(list.drop_last()), list.last())
    }
}

/// Whether hits are in strictly ascending order of their titles.
pub open spec fn titles_ascend(list: Seq<(Seq<char>, Seq<char>)>) -> bool {
    forall|i: int, j: int|
        0 <= i < j < list.len() ==> text_before((#[trigger] list[i]).0, (#[trigger] list[j]).0)
}

/// Whether one of the hits has a title.
pub open spec fn has_title(list: Seq<(Seq<char>, Seq<char>)>, title: Seq<char>) -> bool {
    exists|i: int| 0 <= i < list.len() && (#[trigger] list[i]).0 == title
}

proof fn lemma_place(list: Seq<(Seq<char>, Seq<char>)>, title: Seq<char>)
    ensures
        place(list, title) <= list.len(),
        forall|i: int| 0 <= i < place(list, title) ==> text_before((#[trigger] list[i]).0, title),
        place(list, title) < list.len() ==> !text_before(
            list[place(list, title) as int].0,
            title,
        ),
    decreases list.len(),
{
    if list.len() == 0 || !text_before(list[0].0, title) {
    } else {
        let rest = list.skip(1);
        lemma_place(rest, title);
        assert forall|i: int| 0 <= i < place(list, title) implies text_before(
            (#[trigger] list[i]).0,
            title,
        ) by {
            if i > 0 {
                assert(list[i] == rest[i - 1]);
            }
        }
        if place(list, title) < list.len() {
            assert(list[place(list, title) as int] == rest[place(rest, title) as int]);
        }
    }
}

proof fn lemma_with_hit_ascends(
    list: Seq<(Seq<char>, Seq<char>)>,
    hit: (Seq<char>, Seq<char>),
)
    requires
        titles_ascend(list),
    ensures
        titles_ascend(with_hit(list, hit)),
        forall|i: int|
            0 <= i < list.len() ==> with_hit(list, hit).contains(#[trigger] list[i]),
        forall|h: (Seq<char>, Seq<char>)| #[trigger]
            with_hit(list, hit).contains(h) ==> list.contains(h) || (h == hit && !has_title(
                list,
                hit.0,
            )),
        has_title(with_hit(list, hit), hit.0),
{
    lemma_place(list, hit.0);
    let p = place(list, hit.0) as int;
    let next = with_hit(list, hit);
    if p < list.len() && list[p].0 == hit.0 {
        assert(next[p].0 == hit.0);
        assert forall|i: int| 0 <= i < list.len() implies next.contains(#[trigger] list[i]) by {
            assert(next[i] == list[i]);
        }
    } else {
        assert(next[p] == hit);
        assert forall|i: int| p <= i < list.len() implies text_before(
            hit.0,
            (#[trigger] list[i]).0,
        ) by {
            lemma_text_before_total(list[p].0, hit.0);
            if p < i {
                assert(text_before(list[p].0, list[i].0));
                lemma_text_before_transitive(hit.0, list[p].0, list[i].0);
            }
        }
        assert forall|i: int, j: int| 0 <= i < j < next.len() implies text_before(
            (#[trigger] next[i]).0,
            (#[trigger] next[j]).0,
        ) by {
            let a = if i < p {
                i
            } else {
                i - 1
            };
            let b = if j < p {
                j
            } else {
                j - 1
            };
            if i != p {
                assert(next[i] == list[a]);
            }
            if j != p {
                assert(next[j] == list[b]);
            }
        }
        assert forall|i: int| 0 <= i < list.len() implies next.contains(#[trigger] list[i]) by {
            if i < p {
                assert(next[i] == list[i]);
            } else {
                assert(next[i + 1] == list[i]);
            }
        }
        assert forall|h: (Seq<char>, Seq<char>)| #[trigger] next.contains(h) implies list.contains(
            h,
        ) || (h == hit && !has_title(list, hit.0)) by {
            let k = choose|k: int| 0 <= k < next.len() && next[k] == h;
            if k < p {
                assert(list[k] == h);
            } else if k > p {
                assert(list[k - 1] == h);
            } else {
                assert forall|i: int| 0 <= i < list.len() implies (#[trigger] list[i]).0
                    != hit.0 by {
                    lemma_text_before_total(list[i].0, hit.0);
                }
            }
        }
    }
}

/// Whether a hit is the first of its title.
pub open spec fn first_of_title(
    list: Seq<(Seq<char>, Seq<char>)>,
    hit: (Seq<char>, Seq<char>),
) -> bool {
    exists|k: int|
        0 <= k < list.len() && #[trigger] list[k] == hit && forall|j: int|
            0 <= j < k ==> (#[trigger] list[j]).0 != hit.0
}

/// Hits by title are in ascending order of their titles, each of them is the
/// first of its title, and no title is missing.
pub proof fn law_one_hit_for_each_title(list: Seq<(Seq<char>, Seq<char>)>)
    ensures
        titles_ascend(by_title(list)),
        forall|h: (Seq<char>, Seq<char>)| #[trigger]
            by_title(list).contains(h) ==> first_of_title(list, h),
        forall|k: int|
            0 <= k < list.len() ==> has_title(by_title(list), (#[trigger] list[k]).0),
    decreases list.len(),
{
    if list.len() > 0 {
        let prev = list.drop_last();
        let hit = list.last();
        let sorted = by_title(prev);
        let next = by_title(list);
        law_one_hit_for_each_title(prev);
        lemma_with_hit_ascends(sorted, hit);
        assert forall|h: (Seq<char>, Seq<char>)| #[trigger] next.contains(h) implies first_of_title(
            list,
            h,
        ) by {
            if sorted.contains(h) {
                lemma_first_stays_first(prev, hit, h);
                assert(prev.push(hit) =~= list);
            } else {
                lemma_new_title_is_first(prev, sorted, hit);
                assert(prev.push(hit) =~= list);
            }
        }
        assert forall|k: int| 0 <= k < list.len() implies has_title(
            next,
            (#[trigger] list[k]).0,
        ) by {
            if k < prev.len() {
                assert(list[k] == prev[k]);
                assert(has_title(sorted, prev[k].0));
                let i = choose|i: int|
                    0 <= i < sorted.len() && (#[trigger] sorted[i]).0 == prev[k].0;
                assert(next.contains(sorted[i]));
                let m = choose|m: int| 0 <= m < next.len() && next[m] == sorted[i];
                assert(next[m].0 == list[k].0);
            }
        }
    }
}

proof fn lemma_first_stays_first(
    prev: Seq<(Seq<char>, Seq<char>)>,
    hit: (Seq<char>, Seq<char>),
    h: (Seq<char>, Seq<char>),
)
    requires
        first_of_title(prev, h),
    ensures
        first_of_title(prev.push(hit), h),
{
    let list = prev.push(hit);
    let k = choose|k: int|
        0 <= k < prev.len() && #[trigger] prev[k] == h && forall|j: int|
            0 <= j < k ==> (#[trigger] prev[j]).0 != h.0;
    assert(list[k] == h);
    assert forall|j: int| 0 <= j < k implies (#[trigger] list[j]).0 != h.0 by {
        assert(list[j] == prev[j]);
    }
}

proof fn lemma_new_title_is_first(
    prev: Seq<(Seq<char>, Seq<char>)>,
    sorted: Seq<(Seq<char>, Seq<char>)>,
    hit: (Seq<char>, Seq<char>),
)
    requires
        forall|k: int| 0 <= k < prev.len() ==> has_title(sorted, (#[trigger] prev[k]).0),
        !has_title(sorted, hit.0),
    ensures
        first_of_title(prev.push(hit), hit),
{
    let list = prev.push(hit);
    let k = prev.len() as int;
    assert(list[k] == hit);
    assert forall|j: int| 0 <= j < k implies (#[trigger] list[j]).0 != hit.0 by {
        assert(list[j] == prev[j]);
        assert(has_title(sorted, prev[j].0));
    }
}

fn insert_hit(list: &mut Vec<(String, String)>, hit: (String, String))
    ensures
        hit_views(final(list)@) == with_hit(hit_views(old(list)@), (hit.0@, hit.1@)),
{
    let ghost before = hit_views(list@);
    let ghost new = (hit.0@, hit.1@);
    let mut i: usize = 0;
    assert(before.skip(0) =~= before);
    while i < list.len() && is_before(list[i].0.as_str(), hit.0.as_str())
        invariant
            i <= list@.len(),
            *list == *old(list),
            before == hit_views(list@),
            new == (hit.0@, hit.1@),
            place(before, new.0) == i + place(before.skip(i as int), new.0),
        decreases list@.len() - i,
    {
        assert(before.skip(i as int)[0] == before[i as int]);
        assert(before.skip(i as int).skip(1) =~= before.skip(i + 1));
        i += 1;
    }
    proof {
        if i < list@.len() {
            assert(before.skip(i as int)[0] == before[i as int]);
        }
        assert(place(before, new.0) == i);
    }
    if i < list.len() && same(list[i].0.as_str(), hit.0.as_str()) {
        return ;
    }
    list.insert(i, hit);
    assert(hit_views(list@) =~= before.insert(i as int, new));
}

/// One hit as it is told to the model.
pub open spec fn hit_line(hit: (Seq<char>, Seq<char>)) -> Seq<char> {
    "- "@ + hit.0 + "\n  "@ + hit.1 + "\n"@
}

/// Hits as they are told to the model.
pub open spec fn hit_lines(list: Seq<(Seq<char>, Seq<char>)>) -> Seq<char>
    decreases list.len(),
{
    if list.len() == 0 {
        Seq::empty()
    } else {
        hit_lines(list.drop_last()) + hit_line(list.last())
    }
}

/// The first `n` elements, or all if there are fewer.
pub open spec fn first_n<T>(s: Seq<T>, n: int) -> Seq<T> {
    if s.len() > n {
        s.take(n)
    } else {
        s
    }
}

/// The answer to a web search: at most ten hits, by title, or that there are
/// none.
pub open spec fn hits_answer(list: Seq<(Seq<char>, Seq<char>)>, none: Seq<char>) -> Seq<char> {
    let sorted = by_title(list);
    if sorted.len() == 0 {
        rendered(status_tree("no results"@, none))
    } else {
        trimmed(hit_lines(first_n(sorted, 10)))
    }
}

/// Answers a web search with hits, without duplicates.
pub fn hits_reply(hits: Vec<(String, String)>, none: &str) -> (r: String)
    ensures
        r@ == hits_answer(hit_views(hits@), none@),
{
    let ghost all = hit_views(hits@);
    let mut hits = hits;
    let mut sorted: Vec<(String, String)> = Vec::new();
    let mut done: Ghost<int> = Ghost(0);
    proof {
        assert(all.take(0) =~= Seq::empty());
        assert(hit_views(sorted@) =~= Seq::empty());
        assert(all.skip(0) =~= all);
    }
    while hits.len() > 0
        invariant
            0 <= done@ <= all.len(),
            hit_views(hits@) == all.skip(done@),
            hit_views(sorted@) == by_title(all.take(done@)),
        decreases hits@.len(),
    {
        let ghost queue = hits@;
        let ghost rest = hit_views(queue);
        assert(rest.len() == all.len() - done@);
        let hit = hits.remove(0);
        insert_hit(&mut sorted, hit);
        proof {
            assert(rest[0] == all[done@]);
            assert(all.take(done@ + 1).drop_last() =~= all.take(done@));
            assert(all.take(done@ + 1).last() == all[done@]);
            assert forall|k: int| 0 <= k < hits@.len() implies hit_views(hits@)[k] == all.skip(
                done@ + 1,
            )[k] by {
                assert(hits@[k] == queue[k + 1]);
                assert(rest[k + 1] == all[done@ + 1 + k]);
            }
            assert(hit_views(hits@) =~= all.skip(done@ + 1));
            done@ = done@ + 1;
        }
    }
    proof {
        assert(done@ == all.len()) by {
            assert(hit_views(hits@).len() == 0);
        }
        assert(all.take(done@) =~= all);
    }
    if sorted.len() == 0 {
        return status_reply("no results", none);
    }
    let ghost top = first_n(hit_views(sorted@), 10);
    let n: usize = if sorted.len() > 10 {
        10
    } else {
        sorted.len()
    };
    let mut out = String::new();
    let mut i: usize = 0;
    assert(top.take(0) =~= Seq::empty());
    while i < n
        invariant
            i <= n <= sorted@.len(),
            n == top.len(),
            top == first_n(hit_views(sorted@), 10),
            out@ == hit_lines(top.take(i as int)),
        decreases n - i,
    {
        let ghost before = out@;
        out.append("- ");
        out.append(sorted[i].0.as_str());
        out.append("\n  ");
        out.append(sorted[i].1.as_str());
        out.append("\n");
        proof {
            assert(top[i as int] == hit_views(sorted@)[i as int]);
            assert(top.take(i + 1).drop_last() =~= top.take(i as int));
            assert(top.take(i + 1).last() == top[i as int]);
            assert(out@ =~= before + hit_line(top[i as int]));
        }
        i += 1;
    }
    assert(top.take(i as int) =~= top);
    trim(out.as_str()).to_owned()
}

/// The hits of the pages that could be had, at most five of each.
pub open spec fn page_hits(ddg: Option<Seq<char>>, bing: Option<Seq<char>>) -> Seq<
    (Seq<char>, Seq<char>),
> {
    let first = match ddg {
        Some(html) => ddg_hits(html, 5),
        None => Seq::empty(),
    };
    let second = match bing {
        Some(html) => bing_hits(html, 5),
        None => Seq::empty(),
    };
    first + second
}

/// Answers a web search with the pages of the public engines that could be had.
pub fn web_reply(ddg: Option<&str>, bing: Option<&str>, none: &str) -> (r: String)
    ensures
        r@ == hits_answer(
            page_hits(
                match ddg {
                    Some(html) => Some(html@),
                    None => None,
                },
                match bing {
                    Some(html) => Some(html@),
                    None => None,
                },
            ),
            none@,
        ),
{
    let mut hits: Vec<(String, String)> = Vec::new();
    assert(hit_views(hits@) =~= Seq::empty());
    if let Some(html) = ddg {
        hits = parse_ddg(html, 5);
    }
    let ghost first = hit_views(hits@);
    let mut more: Vec<(String, String)> = Vec::new();
    assert(hit_views(more@) =~= Seq::empty());
    if let Some(html) = bing {
        more = parse_bing(html, 5);
    }
    assert(hit_views(hits@ + more@) =~= first + hit_views(more@));
    hits.append(&mut more);
    hits_reply(hits, none)
}

/// The request body of a Tavily search.
pub open spec fn tavily_tree(key: Seq<char>, query: Seq<char>) -> JsonView {
    JsonView::Object(
        seq![
            ("api_key"@, JsonView::Text(key)),
            ("query"@, JsonView::Text(query)),
            ("search_depth"@, JsonView::Text("basic"@)),
            ("max_results"@, JsonView::Unsigned(6)),
            ("include_answer"@, JsonView::Bool(true)),
        ],
    )
}

/// Builds the request body of a Tavily search.
pub fn tavily_body(key: &str, query: &str) -> (r: Json)
    ensures
        r@ == tavily_tree(key@, query@),
{
    let mut o: Vec<(String, Json)> = Vec::new();
    o.push(("api_key".to_owned(), text(key)));
    o.push(("query".to_owned(), text(query)));
    o.push(("search_depth".to_owned(), text("basic")));
    o.push(("max_results".to_owned(), Json::Unsigned(6)));
    o.push(("include_answer".to_owned(), Json::Bool(true)));
    assert(members(o@) =~= tavily_tree(key@, query@)->Object_0);
    object(o)
}

/// The answer line of a Tavily reply, if it has one.
pub open spec fn tavily_answer(value: JsonView) -> Seq<char> {
    match value.text_at("answer"@) {
        Some(a) => if a.len() == 0 {
            Seq::empty()
        } else {
            "Answer: "@ + a + "\n\n"@
        },
        None => Seq::empty(),
    }
}

/// One result of a Tavily reply.
pub open spec fn tavily_line(r: JsonView) -> Seq<char> {
    "- "@ + r.text_or_empty("title"@) + "\n  "@ + r.text_or_empty("url"@) + "\n  "@
        + r.text_or_empty("content"@) + "\n"@
}

/// Results of a Tavily reply.
pub open spec fn tavily_lines(list: Seq<JsonView>) -> Seq<char>
    decreases list.len(),
{
    if list.len() == 0 {
        Seq::empty()
    } else {
        tavily_lines(list.drop_last()) + tavily_line(list.last())
    }
}

/// The answer to a web search that Tavily replied to: its own answer and at most
/// six results. An empty list of results is none at all.
pub open spec fn tavily_text(value: JsonView, none: Seq<char>) -> Seq<char> {
    match value.array_at("results"@) {
        Some(list) => if list.len() == 0 {
            rendered(status_tree("no results"@, none))
        } else {
            trimmed(tavily_answer(value) + tavily_lines(first_n(list, 6)))
        },
        None => trimmed(tavily_answer(value)),
    }
}

/// Answers a web search that Tavily replied to.
pub fn tavily_reply(value: &Json, none: &str) -> (r: String)
    ensures
        r@ == tavily_text(value@, none@),
{
    let mut out = String::new();
    if let Some(answer) = value.text_at("answer") {
        if !answer.is_empty() {
            out.append("Answer: ");
            out.append(answer);
            out.append("\n\n");
        }
    }
    assert(out@ =~= tavily_answer(value@));
    let ghost start = out@;
    if let Some(results) = value.array_at("results") {
        if results.len() == 0 {
            return status_reply("no results", none);
        }
        let ghost top = first_n(json_views(results@), 6);
        let n: usize = if results.len() > 6 {
            6
        } else {
            results.len()
        };
        let mut i: usize = 0;
        assert(top.take(0) =~= Seq::empty());
        assert(start + tavily_lines(top.take(0)) =~= start);
        while i < n
            invariant
                i <= n <= results@.len(),
                n == top.len(),
                top == first_n(json_views(results@), 6),
                out@ == start + tavily_lines(top.take(i as int)),
            decreases n - i,
        {
            let ghost before = out@;
            let result = &results[i];
            out.append("- ");
            out.append(result.text_or_empty("title").as_str());
            out.append("\n  ");
            out.append(result.text_or_empty("url").as_str());
            out.append("\n  ");
            out.append(result.text_or_empty("content").as_str());
            out.append("\n");
            proof {
                assert(top[i as int] == results@[i as int]@);
                assert(top.take(i + 1).drop_last() =~= top.take(i as int));
                assert(top.take(i + 1).last() == top[i as int]);
                assert(out@ =~= before + tavily_line(top[i as int]));
                assert(out@ =~= start + (tavily_lines(top.take(i as int)) + tavily_line(
                    top[i as int],
                )));
            }
            i += 1;
        }
        assert(top.take(i as int) =~= top);
    }
    trim(out.as_str()).to_owned()
}

/// The maximum number of characters a fetched page contributes.
pub const MAX_FETCH: usize = 12_000;

/// Whether a url can be fetched.
pub open spec fn fetchable(url: Seq<char>) -> bool {
    starts_with_of(url, "https://"@) || starts_with_of(url, "http://"@)
}

/// The url to fetch; none unless it is an http(s) url.
pub fn fetch_url(url: &str) -> (r: Option<&str>)
    ensures
        match r {
            Some(u) => fetchable(trimmed(url@)) && u@ == trimmed(url@),
            None => !fetchable(trimmed(url@)),
        },
{
    let url = trim(url);
    if starts_with(url, "https://") || starts_with(url, "http://") {
        Some(url)
    } else {
        None
    }
}

/// A fetched page as it is told to the model.
pub open spec fn page_tree(url: Seq<char>, content: Seq<char>) -> JsonView {
    JsonView::Object(seq![("url"@, JsonView::Text(url)), ("content"@, JsonView::Text(content))])
}

/// The answer to a fetch: the page, or that there is nothing to read on it.
pub open spec fn page_answer(url: Seq<char>, content: Seq<char>, empty: Seq<char>) -> Seq<char> {
    if content.len() == 0 {
        rendered(status_tree("empty"@, empty))
    } else {
        rendered(page_tree(url, content))
    }
}

/// Answers a fetch with the readable text of the page.
pub fn page_reply(url: &str, content: &str, empty: &str) -> (r: String)
    ensures
        r@ == page_answer(url@, content@, empty@),
{
    if content.is_empty() {
        return status_reply("empty", empty);
    }
    let mut o: Vec<(String, Json)> = Vec::new();
    o.push(("url".to_owned(), text(url)));
    o.push(("content".to_owned(), text(content)));
    assert(members(o@) =~= page_tree(url@, content@)->Object_0);
    let value = object(o);
    render(&value)
}

/// Answers a fetch with the page that came back.
pub fn fetch_reply(url: &str, html: &str, empty: &str) -> (r: String)
    ensures
        r@ == page_answer(url@, text_in(html@, MAX_FETCH as nat), empty@),
{
    page_reply(url, text_from_html(html, MAX_FETCH).as_str(), empty)
}

/// A package found in a repository.
#[derive(Debug)]
pub struct RepoHit {
    pub repo: String,
    pub name: String,
    pub version: String,
    pub desc: String,
}

/// A package found in the AUR. The popularity is written out, with two digits.
#[derive(Debug)]
pub struct AurHit {
    pub name: String,
    pub version: String,
    pub desc: String,
    pub votes: u32,
    pub popularity: String,
}

/// The votes and popularity of a package.
pub open spec fn stats_text(votes: u32, popularity: Seq<char>) -> Seq<char> {
    " votes="@ + decimal(votes as nat) + " popularity="@ + popularity
}

/// Writes the votes and popularity of a package.
pub fn stats(votes: u32, popularity: &str) -> (r: String)
    ensures
        r@ == stats_text(votes, popularity@),
{
    let mut out = " votes=".to_owned();
    out.append(number_text(votes as u64).as_str());
    out.append(" popularity=");
    out.append(popularity);
    out
}

/// The line of a package found in a repository.
pub open spec fn repo_line(n: nat, hit: RepoHit) -> Seq<char> {
    decimal(n) + ". "@ + hit.repo@ + "/"@ + hit.name@ + " "@ + hit.version@ + "  "@ + hit.desc@
}

/// The line of a package found in the AUR.
pub open spec fn aur_line(n: nat, hit: AurHit) -> Seq<char> {
    decimal(n) + ". aur/"@ + hit.name@ + " "@ + hit.version@ + "  "@ + hit.desc@ + stats_text(
        hit.votes,
        hit.popularity@,
    )
}

/// The lines of all packages, numbered through.
pub open spec fn package_lines(repo: Seq<RepoHit>, aur: Seq<AurHit>) -> Seq<Seq<char>> {
    Seq::new(
        repo.len() + aur.len(),
        |i: int|
            if i < repo.len() {
                repo_line((i + 1) as nat, repo[i])
            } else {
                aur_line((i + 1) as nat, aur[i - repo.len()])
            },
    )
}

/// The answer to a package search.
pub open spec fn packages_answer(repo: Seq<RepoHit>, aur: Seq<AurHit>, none: Seq<char>) -> Seq<
    char,
> {
    if repo.len() + aur.len() == 0 {
        rendered(status_tree("no results"@, none))
    } else {
        joined(package_lines(repo, aur), "\n"@)
    }
}

/// Answers a package search: the packages of the repositories, then those of the
/// AUR, numbered through.
pub fn packages_reply(repo: &Vec<RepoHit>, aur: &Vec<AurHit>, none: &str) -> (r: String)
    requires
        repo@.len() + aur@.len() <= u64::MAX,
    ensures
        r@ == packages_answer(repo@, aur@, none@),
{
    if repo.len() == 0 && aur.len() == 0 {
        return status_reply("no results", none);
    }
    let ghost want = package_lines(repo@, aur@);
    let mut out: Vec<String> = Vec::new();
    let mut i: usize = 0;
    while i < repo.len()
        invariant
            i <= repo@.len(),
            want == package_lines(repo@, aur@),
            out@.len() == i,
            forall|k: int| 0 <= k < i ==> (#[trigger] out@[k])@ == want[k],
        decreases repo@.len() - i,
    {
        let hit = &repo[i];
        let mut line = number_text(i as u64 + 1);
        line.append(". ");
        line.append(hit.repo.as_str());
        line.append("/");
        line.append(hit.name.as_str());
        line.append(" ");
        line.append(hit.version.as_str());
        line.append("  ");
        line.append(hit.desc.as_str());
        out.push(line);
        i += 1;
    }
    let mut j: usize = 0;
    while j < aur.len()
        invariant
            j <= aur@.len(),
            repo@.len() + aur@.len() <= u64::MAX,
            want == package_lines(repo@, aur@),
            out@.len() == repo@.len() + j,
            forall|k: int| 0 <= k < out@.len() ==> (#[trigger] out@[k])@ == want[k],
        decreases aur@.len() - j,
    {
        let hit = &aur[j];
        let mut line = number_text(repo.len() as u64 + j as u64 + 1);
        line.append(". aur/");
        line.append(hit.name.as_str());
        line.append(" ");
        line.append(hit.version.as_str());
        line.append("  ");
        line.append(hit.desc.as_str());
        line.append(stats(hit.votes, hit.popularity.as_str()).as_str());
        out.push(line);
        j += 1;
    }
    assert(texts(out@) =~= want);
    join(out.as_slice(), "\n")
}

/// Letters, digits and the characters `-`, `_`, `.` and `~` stand for themselves,
/// and every other byte for a percent sign and two hexadecimal digits; a text is
/// encoded byte by byte, none left out.
pub proof fn law_each_byte_is_encoded(a: Seq<u8>, b: Seq<u8>, x: u8)
    ensures
        percents(a + b) == percents(a) + percents(b),
        percents(seq![x]) == percent(x),
        'A' as nat <= x <= 'Z' as nat || 'a' as nat <= x <= 'z' as nat || '0' as nat <= x
            <= '9' as nat || x == '-' as nat || x == '_' as nat || x == '.' as nat || x
            == '~' as nat ==> percent(x) == seq![x as char],
        !('A' as nat <= x <= 'Z' as nat || 'a' as nat <= x <= 'z' as nat || '0' as nat <= x
            <= '9' as nat || x == '-' as nat || x == '_' as nat || x == '.' as nat || x
            == '~' as nat) ==> percent(x).len() == 3 && percent(x)[0] == '%',
    decreases b.len(),
{
    let one = seq![x];
    assert(one.drop_last() =~= Seq::<u8>::empty());
    assert(percents(one.drop_last()) =~= Seq::<char>::empty());
    assert(percents(one) =~= percent(x));
    if b.len() == 0 {
        assert(a + b =~= a);
        assert(percents(a) + percents(b) =~= percents(a));
    } else {
        law_each_byte_is_encoded(a, b.drop_last(), x);
        assert((a + b).drop_last() =~= a + b.drop_last());
        assert((a + b).last() == b.last());
        assert(percents(a) + (percents(b.drop_last()) + percent(b.last())) =~= percents(a)
            + percents(b.drop_last()) + percent(b.last()));
    }
}

/// Every hit of a list is told, in order, each by its title and what belongs to it:
/// the lines of two lists are those of the first and then those of the second.
pub proof fn law_every_hit_is_told(
    a: Seq<(Seq<char>, Seq<char>)>,
    b: Seq<(Seq<char>, Seq<char>)>,
    hit: (Seq<char>, Seq<char>),
)
    ensures
        hit_lines(a + b) == hit_lines(a) + hit_lines(b),
        hit_lines(seq![hit]) == hit_line(hit),
        contains_of(hit_line(hit), hit.0),
        contains_of(hit_line(hit), hit.1),
    decreases b.len(),
{
    let one = seq![hit];
    assert(one.drop_last() =~= Seq::<(Seq<char>, Seq<char>)>::empty());
    assert(hit_lines(one.drop_last()) =~= Seq::<char>::empty());
    assert(hit_lines(one) =~= hit_line(hit));
    lemma_contains("- "@, hit.0, "\n  "@ + hit.1 + "\n"@, hit_line(hit));
    lemma_contains("- "@ + hit.0 + "\n  "@, hit.1, "\n"@, hit_line(hit));
    if b.len() == 0 {
        assert(a + b =~= a);
        assert(hit_lines(a) + hit_lines(b) =~= hit_lines(a));
    } else {
        law_every_hit_is_told(a, b.drop_last(), hit);
        assert((a + b).drop_last() =~= a + b.drop_last());
        assert((a + b).last() == b.last());
        assert(hit_lines(a) + (hit_lines(b.drop_last()) + hit_line(b.last())) =~= hit_lines(a)
            + hit_lines(b.drop_last()) + hit_line(b.last()));
    }
}

/// A web search is answered by its hits, one for each title: all of them up to ten,
/// and the first ten of more. Where there is none the answer says so.
pub proof fn law_up_to_ten_hits_are_told(list: Seq<(Seq<char>, Seq<char>)>, none: Seq<char>)
    ensures
        list.len() == 0 ==> hits_answer(list, none) == rendered(status_tree("no results"@, none)),
        list.len() > 0 && by_title(list).len() <= 10 ==> hits_answer(list, none) == trimmed(
            hit_lines(by_title(list)),
        ),
        by_title(list).len() > 10 ==> hits_answer(list, none) == trimmed(
            hit_lines(by_title(list).take(10)),
        ),
{
    law_one_hit_for_each_title(list);
    if list.len() > 0 {
        assert(has_title(by_title(list), list[0].0));
    }
}

/// The hits of both pages are told, those of the first page before those of the
/// second, and of a page that could not be had there are none.
pub proof fn law_hits_of_both_pages_are_told(ddg: Option<Seq<char>>, bing: Option<Seq<char>>)
    ensures
        ddg is Some && bing is Some ==> page_hits(ddg, bing) == ddg_hits(ddg->0, 5) + bing_hits(
            bing->0,
            5,
        ),
        ddg is Some && bing is None ==> page_hits(ddg, bing) == ddg_hits(ddg->0, 5),
        ddg is None && bing is Some ==> page_hits(ddg, bing) == bing_hits(bing->0, 5),
        ddg is None && bing is None ==> page_hits(ddg, bing).len() == 0,
{
    let none = Seq::<(Seq<char>, Seq<char>)>::empty();
    if let Some(html) = ddg {
        assert(ddg_hits(html, 5) + none =~= ddg_hits(html, 5));
    }
    if let Some(html) = bing {
        assert(none + bing_hits(html, 5) =~= bing_hits(html, 5));
    }
}

/// A search of Tavily is asked for with the key and the query, for an answer and six
/// results.
pub proof fn law_a_tavily_search_carries_key_and_query(key: Seq<char>, query: Seq<char>)
    ensures
        tavily_tree(key, query).text_at("api_key"@) == Some(key),
        tavily_tree(key, query).text_at("query"@) == Some(query),
        tavily_tree(key, query).text_at("search_depth"@) == Some("basic"@),
        tavily_tree(key, query).get("max_results"@) == Some(JsonView::Unsigned(6)),
        tavily_tree(key, query).get("include_answer"@) == Some(JsonView::Bool(true)),
{
    reveal_strlit("api_key");
    reveal_strlit("query");
    reveal_strlit("search_depth");
    reveal_strlit("max_results");
    reveal_strlit("include_answer");
    assert("api_key"@.len() == 7 && "query"@.len() == 5 && "search_depth"@.len() == 12);
    assert("max_results"@.len() == 11 && "include_answer"@.len() == 14);
    let o = tavily_tree(key, query)->Object_0;
    law_a_member_is_found_by_its_key(o, "api_key"@, 0);
    law_a_member_is_found_by_its_key(o, "query"@, 1);
    law_a_member_is_found_by_its_key(o, "search_depth"@, 2);
    law_a_member_is_found_by_its_key(o, "max_results"@, 3);
    law_a_member_is_found_by_its_key(o, "include_answer"@, 4);
}

/// A reply of Tavily is told with its own answer first, unless that is empty, and up
/// to six of its results, the first of them and in order, each by its title, its url
/// and its content.
pub proof fn law_a_tavily_reply_is_told(value: JsonView, none: Seq<char>)
    ensures
        ({
            let answer = value.text_or_empty("answer"@);
            let first = if answer.len() > 0 {
                "Answer: "@ + answer + "\n\n"@
            } else {
                Seq::empty()
            };
            match value.array_at("results"@) {
                Some(list) => {
                    &&& list.len() == 0 ==> tavily_text(value, none) == rendered(
                        status_tree("no results"@, none),
                    )
                    &&& 0 < list.len() <= 6 ==> tavily_text(value, none) == trimmed(
                        first + tavily_lines(list),
                    )
                    &&& list.len() > 6 ==> tavily_text(value, none) == trimmed(
                        first + tavily_lines(list.take(6)),
                    )
                },
                None => tavily_text(value, none) == trimmed(first),
            }
        }),
{
}

/// Every result of a list is told, in order: the lines of two lists are those of the
/// first and then those of the second, and those of one result hold its title, its
/// url and its content.
pub proof fn law_every_result_is_told(a: Seq<JsonView>, b: Seq<JsonView>, r: JsonView)
    ensures
        tavily_lines(a + b) == tavily_lines(a) + tavily_lines(b),
        tavily_lines(seq![r]) == tavily_line(r),
        tavily_line(r) == "- "@ + r.text_or_empty("title"@) + "\n  "@ + r.text_or_empty("url"@)
            + "\n  "@ + r.text_or_empty("content"@) + "\n"@,
    decreases b.len(),
{
    let one = seq![r];
    assert(one.drop_last() =~= Seq::<JsonView>::empty());
    assert(tavily_lines(one.drop_last()) =~= Seq::<char>::empty());
    assert(tavily_lines(one) =~= tavily_line(r));
    if b.len() == 0 {
        assert(a + b =~= a);
        assert(tavily_lines(a) + tavily_lines(b) =~= tavily_lines(a));
    } else {
        law_every_result_is_told(a, b.drop_last(), r);
        assert((a + b).drop_last() =~= a + b.drop_last());
        assert((a + b).last() == b.last());
        assert(tavily_lines(a) + (tavily_lines(b.drop_last()) + tavily_line(b.last()))
            =~= tavily_lines(a) + tavily_lines(b.drop_last()) + tavily_line(b.last()));
    }
}

/// Only the web is fetched from: a url is taken exactly when it is one of the two
/// schemes and something behind it.
pub proof fn law_only_web_urls_are_fetched(url: Seq<char>)
    ensures
        fetchable(url) <==> (url.len() >= 8 && url.take(8) == "https://"@) || (url.len() >= 7
            && url.take(7) == "http://"@),
{
    reveal_strlit("https://");
    reveal_strlit("http://");
    assert("https://"@.len() == 8);
    assert("http://"@.len() == 7);
    if url.len() >= 8 {
        assert(url.take(8) =~= url.subrange(0, 8));
    }
    if url.len() >= 7 {
        assert(url.take(7) =~= url.subrange(0, 7));
    }
}

/// A page is told with its url and its text, and one without text as empty.
pub proof fn law_a_page_is_told_with_its_url(
    url: Seq<char>,
    content: Seq<char>,
    empty: Seq<char>,
)
    ensures
        page_tree(url, content).text_at("url"@) == Some(url),
        page_tree(url, content).text_at("content"@) == Some(content),
        content.len() > 0 ==> page_answer(url, content, empty) == rendered(
            page_tree(url, content),
        ),
        content.len() == 0 ==> page_answer(url, content, empty) == rendered(
            status_tree("empty"@, empty),
        ),
{
    reveal_strlit("url");
    reveal_strlit("content");
    assert("url"@.len() == 3 && "content"@.len() == 7);
    let o = page_tree(url, content)->Object_0;
    law_a_member_is_found_by_its_key(o, "url"@, 0);
    law_a_member_is_found_by_its_key(o, "content"@, 1);
}

/// Every package that was found is told, on a line of its own and numbered through
/// from one: those of the repositories in order, and behind them those of the AUR in
/// order, with their votes and their popularity.
pub proof fn law_every_found_package_is_told(
    repo: Seq<RepoHit>,
    aur: Seq<AurHit>,
    none: Seq<char>,
    i: int,
)
    requires
        0 <= i,
    ensures
        package_lines(repo, aur).len() == repo.len() + aur.len(),
        i < repo.len() ==> package_lines(repo, aur)[i] == decimal((i + 1) as nat) + ". "@
            + repo[i].repo@ + "/"@ + repo[i].name@ + " "@ + repo[i].version@ + "  "@
            + repo[i].desc@,
        i < aur.len() ==> package_lines(repo, aur)[repo.len() + i] == decimal(
            (repo.len() + i + 1) as nat,
        ) + ". aur/"@ + aur[i].name@ + " "@ + aur[i].version@ + "  "@ + aur[i].desc@ + (
        " votes="@ + decimal(aur[i].votes as nat) + " popularity="@ + aur[i].popularity@),
        repo.len() + aur.len() > 0 ==> packages_answer(repo, aur, none) == joined(
            package_lines(repo, aur),
            seq!['\n'],
        ),
        repo.len() + aur.len() == 0 ==> packages_answer(repo, aur, none) == rendered(
            status_tree("no results"@, none),
        ),
{
    reveal_strlit("\n");
    assert("\n"@ =~= seq!['\n']);
}

} // verus!
