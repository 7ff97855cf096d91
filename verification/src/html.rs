//! Reading web pages: the text of an article and the hits of a search.

use crate::text::{
    clip, clipped, join, joined, lemma_trimmed, lemma_trimmed_twice, texts, trim, trimmed,
};
use scraper::{ElementRef, Html, Selector};
use vstd::prelude::*;

verus! {

/// An element below another: its text nodes and the value of one of its
/// attributes.
#[derive(Debug)]
pub struct Part {
    pub texts: Vec<String>,
    pub attribute: Option<String>,
}

/// An element of a page: its text nodes, and for each of several selectors the
/// elements it finds below.
#[derive(Debug)]
pub struct Node {
    pub texts: Vec<String>,
    pub parts: Vec<Vec<Part>>,
}

/// What a [`Part`] stands for.
pub struct PartView {
    pub texts: Seq<Seq<char>>,
    pub attribute: Option<Seq<char>>,
}

/// What a [`Node`] stands for.
pub struct NodeView {
    pub texts: Seq<Seq<char>>,
    pub parts: Seq<Seq<PartView>>,
}

impl View for Part {
    type V = PartView;

    open spec fn view(&self) -> PartView {
        PartView {
            texts: texts(self.texts@),
            attribute: match self.attribute {
                Some(s) => Some(s@),
                None => None,
            },
        }
    }
}

impl View for Node {
    type V = NodeView;

    open spec fn view(&self) -> NodeView {
        NodeView {
            texts: texts(self.texts@),
            parts: Seq::new(self.parts@.len(), |i: int| part_views(self.parts@[i]@)),
        }
    }
}

/// The views of elements below another.
pub open spec fn part_views(parts: Seq<Part>) -> Seq<PartView> {
    Seq::new(parts.len(), |i: int| parts[i]@)
}

/// The views of a sequence of elements.
pub open spec fn node_views(nodes: Seq<Node>) -> Seq<NodeView> {
    Seq::new(nodes.len(), |i: int| nodes[i]@)
}

/// The views of the elements a selection found, if its selectors were valid.
pub open spec fn found(nodes: Option<Vec<Node>>) -> Option<Seq<NodeView>> {
    match nodes {
        Some(v) => Some(node_views(v@)),
        None => None,
    }
}

/// The elements of a page that a selector finds, in the order in which the parser
/// made them, and the parts that further selectors find below each; nothing if a selector
/// is not valid.
pub uninterp spec fn selected(
    html: Seq<char>,
    item: Seq<char>,
    parts: Seq<Seq<char>>,
    attribute: Seq<char>,
) -> Option<Seq<NodeView>>;

/// Parses a page with `scraper::Html::parse_document` and its selectors with
/// `Selector::parse`, and collects what `select`, `text` and `attr` give. What
/// they give is only named, but for there being one part for each selector.
#[verifier::external_body]
fn select(html: &str, item: &str, parts: &Vec<String>, attribute: &str) -> (r: Option<Vec<Node>>)
    ensures
        found(r) == selected(html@, item@, texts(parts@), attribute@),
        r is Some ==> forall|i: int|
            0 <= i < r->0@.len() ==> (#[trigger] r->0@[i]).parts@.len() == parts@.len(),
{
    let item = Selector::parse(item).ok()?;
    let parts = parts.iter().map(|p| Selector::parse(p).ok()).collect::<Option<Vec<_>>>()?;
    let texts = |e: ElementRef| e.text().map(str::to_string).collect();
    let part = |e: ElementRef| Part {
        texts: texts(e),
        attribute: e.value().attr(attribute).map(str::to_string),
    };
    let node = |e: ElementRef| Node {
        texts: texts(e),
        parts: parts.iter().map(|p| e.select(p).map(part).collect()).collect(),
    };
    Some(Html::parse_document(html).select(&item).map(node).collect())
}

/// The text of an element, its text nodes put together.
pub open spec fn whole(list: Seq<Seq<char>>) -> Seq<char> {
    trimmed(joined(list, ""@))
}

fn whole_text(list: &Vec<String>) -> (r: String)
    ensures
        r@ == whole(texts(list@)),
{
    trim(join(list.as_slice(), "").as_str()).to_owned()
}

/// The title line of a page, if it has a title.
pub open spec fn title_line(titles: Option<Seq<NodeView>>) -> Seq<char> {
    match titles {
        Some(nodes) => if nodes.len() == 0 || whole(nodes[0].texts).len() == 0 {
            Seq::empty()
        } else {
            "title: "@ + whole(nodes[0].texts) + "\n"@
        },
        None => Seq::empty(),
    }
}

/// A page with a line of text added, unless the line is blank.
pub open spec fn with_line(out: Seq<char>, line: Seq<char>) -> Seq<char> {
    if trimmed(line).len() == 0 {
        out
    } else {
        out + trimmed(line) + "\n"@
    }
}

/// A page with lines added, until it has `max` characters.
pub open spec fn with_lines(out: Seq<char>, list: Seq<Seq<char>>, max: nat) -> Seq<char>
    decreases list.len(),
{
    if list.len() == 0 {
        out
    } else {
        let next = with_line(out, list[0]);
        if next.len() >= max {
            next
        } else {
            with_lines(next, list.skip(1), max)
        }
    }
}

/// A page with the lines of elements added, until it has `max` characters.
pub open spec fn with_nodes(out: Seq<char>, nodes: Seq<NodeView>, max: nat) -> Seq<char>
    decreases nodes.len(),
{
    if nodes.len() == 0 {
        out
    } else {
        let next = with_lines(out, nodes[0].texts, max);
        if next.len() >= max {
            next
        } else {
            with_nodes(next, nodes.skip(1), max)
        }
    }
}

/// A page with the lines of the first selection that adds any text to it.
pub open spec fn with_sections(
    out: Seq<char>,
    sections: Seq<Option<Seq<NodeView>>>,
    max: nat,
) -> Seq<char>
    decreases sections.len(),
{
    if sections.len() == 0 {
        out
    } else {
        match sections[0] {
            None => with_sections(out, sections.skip(1), max),
            Some(nodes) => {
                let next = with_nodes(out, nodes, max);
                if next.len() > out.len() {
                    next
                } else {
                    with_sections(out, sections.skip(1), max)
                }
            },
        }
    }
}

/// The text of a page before it is cut to its size.
pub open spec fn page_of(
    titles: Option<Seq<NodeView>>,
    sections: Seq<Option<Seq<NodeView>>>,
    max: nat,
) -> Seq<char> {
    with_sections(title_line(titles), sections, max)
}

/// The views of several selections.
pub open spec fn all_found(list: Seq<Option<Vec<Node>>>) -> Seq<Option<Seq<NodeView>>> {
    Seq::new(list.len(), |i: int| found(list[i]))
}

proof fn lemma_lines_add(out: Seq<char>, list: Seq<Seq<char>>, max: nat)
    ensures
        out.is_prefix_of(with_lines(out, list, max)),
    decreases list.len(),
{
    if list.len() > 0 {
        let next = with_line(out, list[0]);
        assert(out.is_prefix_of(next));
        lemma_lines_add(next, list.skip(1), max);
    }
}

/// Adding elements keeps what stood there.
proof fn lemma_nodes_add(out: Seq<char>, nodes: Seq<NodeView>, max: nat)
    ensures
        out.is_prefix_of(with_nodes(out, nodes, max)),
    decreases nodes.len(),
{
    if nodes.len() > 0 {
        lemma_lines_add(out, nodes[0].texts, max);
        lemma_nodes_add(with_lines(out, nodes[0].texts, max), nodes.skip(1), max);
    }
}

fn add_lines(out: &mut String, list: &Vec<String>, max: usize)
    ensures
        final(out)@ == with_lines(old(out)@, texts(list@), max as nat),
{
    let ghost all = texts(list@);
    let mut i: usize = 0;
    assert(all.skip(0) =~= all);
    while i < list.len()
        invariant
            i <= list@.len(),
            all == texts(list@),
            with_lines(old(out)@, all, max as nat) == with_lines(
                out@,
                all.skip(i as int),
                max as nat,
            ),
        decreases list@.len() - i,
    {
        let ghost rest = all.skip(i as int);
        let line = trim(list[i].as_str());
        if !line.is_empty() {
            out.append(line);
            out.append("\n");
        }
        i += 1;
        assert(rest.skip(1) =~= all.skip(i as int));
        if out.as_str().unicode_len() >= max {
            return ;
        }
    }
}

fn add_nodes(out: &mut String, nodes: &Vec<Node>, max: usize)
    ensures
        final(out)@ == with_nodes(old(out)@, node_views(nodes@), max as nat),
{
    let ghost all = node_views(nodes@);
    let mut i: usize = 0;
    assert(all.skip(0) =~= all);
    while i < nodes.len()
        invariant
            i <= nodes@.len(),
            all == node_views(nodes@),
            with_nodes(old(out)@, all, max as nat) == with_nodes(
                out@,
                all.skip(i as int),
                max as nat,
            ),
        decreases nodes@.len() - i,
    {
        let ghost rest = all.skip(i as int);
        add_lines(out, &nodes[i].texts, max);
        i += 1;
        assert(rest.skip(1) =~= all.skip(i as int));
        if out.as_str().unicode_len() >= max {
            return ;
        }
    }
}

fn page_text(titles: &Option<Vec<Node>>, sections: &Vec<Option<Vec<Node>>>, max: usize) -> (r:
    String)
    ensures
        r@ == page_of(found(*titles), all_found(sections@), max as nat),
{
    let mut out = String::new();
    if let Some(nodes) = titles {
        if nodes.len() > 0 {
            assert(node_views(nodes@)[0] == nodes@[0]@);
            let title = whole_text(&nodes[0].texts);
            if !title.as_str().is_empty() {
                out.append("title: ");
                out.append(title.as_str());
                out.append("\n");
            }
        }
    }
    assert(out@ =~= title_line(found(*titles)));
    let ghost start = out@;
    let ghost all = all_found(sections@);
    let mut i: usize = 0;
    assert(all.skip(0) =~= all);
    while i < sections.len()
        invariant
            i <= sections@.len(),
            all == all_found(sections@),
            start == title_line(found(*titles)),
            with_sections(start, all, max as nat) == with_sections(
                out@,
                all.skip(i as int),
                max as nat,
            ),
        decreases sections@.len() - i,
    {
        let ghost rest = all.skip(i as int);
        assert(rest[0] == found(sections@[i as int]));
        assert(rest.skip(1) =~= all.skip(i + 1));
        if let Some(nodes) = &sections[i] {
            let before: usize = out.as_str().unicode_len();
            let ghost page = out@;
            proof {
                lemma_nodes_add(out@, node_views(nodes@), max as nat);
            }
            add_nodes(&mut out, nodes, max);
            if out.as_str().unicode_len() > before {
                return out;
            }
            assert(out@ =~= page);
        }
        i += 1;
    }
    out
}

/// The readable text of a page: at most `max` characters of it, trimmed.
pub open spec fn text_of(
    titles: Option<Seq<NodeView>>,
    sections: Seq<Option<Seq<NodeView>>>,
    max: nat,
) -> Seq<char> {
    trimmed(clipped(page_of(titles, sections, max), max))
}

/// The readable text of a page, from what was found in it: the title and the
/// lines of its main element, its article or its body.
pub fn readable_text(
    titles: &Option<Vec<Node>>,
    sections: &Vec<Option<Vec<Node>>>,
    max: usize,
) -> (r: String)
    ensures
        r@ == text_of(found(*titles), all_found(sections@), max as nat),
{
    let out = page_text(titles, sections, max);
    trim(clip(out.as_str(), max)).to_owned()
}

/// The selections that the text of a page is looked for in.
pub open spec fn sections_in(html: Seq<char>) -> Seq<Option<Seq<NodeView>>> {
    seq![
        selected(html, "main"@, Seq::empty(), ""@),
        selected(html, "article"@, Seq::empty(), ""@),
        selected(html, "body"@, Seq::empty(), ""@),
    ]
}

/// The readable text of a page, at most `max` characters of it.
pub open spec fn text_in(html: Seq<char>, max: nat) -> Seq<char> {
    text_of(selected(html, "title"@, Seq::empty(), ""@), sections_in(html), max)
}

fn titles_in(html: &str) -> (r: Option<Vec<Node>>)
    ensures
        found(r) == selected(html@, "title"@, Seq::empty(), ""@),
{
    let none: Vec<String> = Vec::new();
    assert(texts(none@) =~= Seq::empty());
    select(html, "title", &none, "")
}

fn select_sections(html: &str) -> (r: Vec<Option<Vec<Node>>>)
    ensures
        all_found(r@) == sections_in(html@),
{
    let none: Vec<String> = Vec::new();
    assert(texts(none@) =~= Seq::empty());
    let mut sections: Vec<Option<Vec<Node>>> = Vec::new();
    sections.push(select(html, "main", &none, ""));
    sections.push(select(html, "article", &none, ""));
    sections.push(select(html, "body", &none, ""));
    assert(all_found(sections@) =~= sections_in(html@));
    sections
}

/// A readable page: title plus the text of the main paragraphs, at most `max`
/// characters of it.
pub fn text_from_html(html: &str, max: usize) -> (r: String)
    ensures
        r@ == text_in(html@, max as nat),
{
    readable_text(&titles_in(html), &select_sections(html), max)
}

/// A page contributes at most as many characters as it is limited to, and no
/// white space around them.
pub proof fn law_a_page_stays_within_its_limit(
    titles: Option<Seq<NodeView>>,
    sections: Seq<Option<Seq<NodeView>>>,
    max: nat,
)
    ensures
        text_of(titles, sections, max).len() <= max,
        trimmed(text_of(titles, sections, max)) == text_of(titles, sections, max),
{
    let page = clipped(page_of(titles, sections, max), max);
    let (a, b) = lemma_trimmed(page);
    lemma_trimmed_twice(page);
}

proof fn lemma_some_line_adds(out: Seq<char>, list: Seq<Seq<char>>, max: nat, k: int)
    requires
        out.len() < max,
        0 <= k < list.len(),
        trimmed(list[k]).len() > 0,
    ensures
        with_lines(out, list, max).len() > out.len(),
    decreases list.len(),
{
    let next = with_line(out, list[0]);
    if k == 0 {
        lemma_lines_add(next, list.skip(1), max);
    } else if next.len() < max {
        assert(list.skip(1)[k - 1] == list[k]);
        lemma_some_line_adds(next, list.skip(1), max, k - 1);
    }
}

proof fn lemma_some_node_adds(out: Seq<char>, nodes: Seq<NodeView>, max: nat, m: int, k: int)
    requires
        out.len() < max,
        0 <= m < nodes.len(),
        0 <= k < nodes[m].texts.len(),
        trimmed(nodes[m].texts[k]).len() > 0,
    ensures
        with_nodes(out, nodes, max).len() > out.len(),
    decreases nodes.len(),
{
    let next = with_lines(out, nodes[0].texts, max);
    lemma_lines_add(out, nodes[0].texts, max);
    if m == 0 {
        lemma_some_line_adds(out, nodes[0].texts, max, k);
        lemma_nodes_add(next, nodes.skip(1), max);
    } else if next.len() < max {
        assert(nodes.skip(1)[m - 1] == nodes[m]);
        lemma_some_node_adds(next, nodes.skip(1), max, m - 1, k);
    }
}

/// Whether an element has no text besides white space.
pub open spec fn blank_node(node: NodeView) -> bool {
    forall|k: int| 0 <= k < node.texts.len() ==> trimmed(#[trigger] node.texts[k]).len() == 0
}

/// Whether a selection found no text besides white space.
pub open spec fn blank_section(section: Option<Seq<NodeView>>) -> bool {
    match section {
        Some(nodes) => forall|m: int| 0 <= m < nodes.len() ==> blank_node(#[trigger] nodes[m]),
        None => true,
    }
}

proof fn lemma_blank_lines(out: Seq<char>, list: Seq<Seq<char>>, max: nat)
    requires
        forall|k: int| 0 <= k < list.len() ==> trimmed(#[trigger] list[k]).len() == 0,
    ensures
        with_lines(out, list, max) == out,
    decreases list.len(),
{
    if list.len() > 0 {
        assert forall|k: int| 0 <= k < list.skip(1).len() implies trimmed(
            #[trigger] list.skip(1)[k],
        ).len() == 0 by {
            assert(list.skip(1)[k] == list[k + 1]);
        }
        lemma_blank_lines(out, list.skip(1), max);
    }
}

proof fn lemma_blank_nodes(out: Seq<char>, nodes: Seq<NodeView>, max: nat)
    requires
        forall|m: int| 0 <= m < nodes.len() ==> blank_node(#[trigger] nodes[m]),
    ensures
        with_nodes(out, nodes, max) == out,
    decreases nodes.len(),
{
    if nodes.len() > 0 {
        assert(blank_node(nodes[0]));
        lemma_blank_lines(out, nodes[0].texts, max);
        assert forall|m: int| 0 <= m < nodes.skip(1).len() implies blank_node(
            #[trigger] nodes.skip(1)[m],
        ) by {
            assert(nodes.skip(1)[m] == nodes[m + 1]);
        }
        lemma_blank_nodes(out, nodes.skip(1), max);
    }
}

proof fn lemma_first_section(
    out: Seq<char>,
    sections: Seq<Option<Seq<NodeView>>>,
    max: nat,
    i: int,
)
    requires
        0 <= i < sections.len(),
        forall|j: int| 0 <= j < i ==> blank_section(#[trigger] sections[j]),
        sections[i] is Some,
        with_nodes(out, sections[i]->0, max).len() > out.len(),
    ensures
        with_sections(out, sections, max) == with_nodes(out, sections[i]->0, max),
    decreases sections.len(),
{
    if i > 0 {
        assert(blank_section(sections[0]));
        if let Some(nodes) = sections[0] {
            lemma_blank_nodes(out, nodes, max);
        }
        let rest = sections.skip(1);
        assert forall|j: int| 0 <= j < i - 1 implies blank_section(#[trigger] rest[j]) by {
            assert(rest[j] == sections[j + 1]);
        }
        assert(rest[i - 1] == sections[i]);
        lemma_first_section(out, rest, max, i - 1);
    }
}

/// A title does not hide the text of a page: behind the title comes the text of
/// the first selection that has any, unless the title fills the page.
pub proof fn law_a_title_does_not_hide_the_text(
    titles: Option<Seq<NodeView>>,
    sections: Seq<Option<Seq<NodeView>>>,
    max: nat,
    i: int,
    m: int,
    k: int,
)
    requires
        title_line(titles).len() < max,
        0 <= i < sections.len(),
        forall|j: int| 0 <= j < i ==> blank_section(#[trigger] sections[j]),
        sections[i] is Some,
        0 <= m < sections[i]->0.len(),
        0 <= k < sections[i]->0[m].texts.len(),
        trimmed(sections[i]->0[m].texts[k]).len() > 0,
    ensures
        page_of(titles, sections, max) == with_nodes(title_line(titles), sections[i]->0, max),
        title_line(titles).is_prefix_of(page_of(titles, sections, max)),
        page_of(titles, sections, max).len() > title_line(titles).len(),
{
    let title = title_line(titles);
    lemma_some_node_adds(title, sections[i]->0, max, m, k);
    lemma_nodes_add(title, sections[i]->0, max);
    lemma_first_section(title, sections, max, i);
}

/// The hit an element describes: the title of its first link, and below each
/// other the url of that and its first snippet. An element without a title or
/// without a url is none.
pub open spec fn hit_of(node: NodeView) -> Option<(Seq<char>, Seq<char>)> {
    let links = node.parts[0];
    let snippets = node.parts[1];
    let (title, url) = if links.len() > 0 {
        (
            whole(links[0].texts),
            match links[0].attribute {
                Some(s) => s,
                None => Seq::empty(),
            },
        )
    } else {
        (Seq::empty(), Seq::empty())
    };
    let snippet = if snippets.len() > 0 {
        whole(snippets[0].texts)
    } else {
        Seq::empty()
    };
    if title.len() == 0 || url.len() == 0 {
        None
    } else {
        Some((title, trimmed(url + "\n"@ + snippet)))
    }
}

/// The hits of several elements behind those found before. Once there are
/// `max`, no further element is looked at.
pub open spec fn hits_from(
    before: Seq<(Seq<char>, Seq<char>)>,
    nodes: Seq<NodeView>,
    max: nat,
) -> Seq<(Seq<char>, Seq<char>)>
    decreases nodes.len(),
{
    if nodes.len() == 0 {
        before
    } else {
        let next = match hit_of(nodes[0]) {
            Some(h) => before.push(h),
            None => before,
        };
        if next.len() >= max {
            next
        } else {
            hits_from(next, nodes.skip(1), max)
        }
    }
}

/// The hits of a selection.
pub open spec fn hits_of(nodes: Option<Seq<NodeView>>, max: nat) -> Seq<(Seq<char>, Seq<char>)> {
    match nodes {
        Some(list) => hits_from(Seq::empty(), list, max),
        None => Seq::empty(),
    }
}

/// The views of a sequence of hits.
pub open spec fn hit_views(list: Seq<(String, String)>) -> Seq<(Seq<char>, Seq<char>)> {
    Seq::new(list.len(), |i: int| (list[i].0@, list[i].1@))
}

fn read_hit(node: &Node) -> (r: Option<(String, String)>)
    requires
        node@.parts.len() == 2,
    ensures
        match r {
            Some(h) => hit_of(node@) == Some((h.0@, h.1@)),
            None => hit_of(node@) is None,
        },
{
    let mut title = String::new();
    let mut url = String::new();
    assert(node@.parts[0].len() == node.parts@[0]@.len());
    if node.parts[0].len() > 0 {
        let a = &node.parts[0][0];
        assert(node@.parts[0][0] == a@);
        title = whole_text(&a.texts);
        if let Some(href) = &a.attribute {
            url = href.clone();
        }
    }
    assert(node@.parts[1].len() == node.parts@[1]@.len());
    let snippet = if node.parts[1].len() > 0 {
        let p = &node.parts[1][0];
        assert(node@.parts[1][0] == p@);
        whole_text(&p.texts)
    } else {
        String::new()
    };
    if title.as_str().is_empty() || url.as_str().is_empty() {
        return None;
    }
    url.append("\n");
    url.append(snippet.as_str());
    let rest = trim(url.as_str()).to_owned();
    Some((title, rest))
}

/// The hits among the elements of a page of results, at most `max` of them.
pub fn read_hits(nodes: &Vec<Node>, max: usize) -> (r: Vec<(String, String)>)
    requires
        forall|i: int| 0 <= i < nodes@.len() ==> (#[trigger] nodes@[i]).parts@.len() == 2,
    ensures
        hit_views(r@) == hits_from(Seq::empty(), node_views(nodes@), max as nat),
{
    let mut out: Vec<(String, String)> = Vec::new();
    let ghost all = node_views(nodes@);
    let mut i: usize = 0;
    proof {
        assert(all.skip(0) =~= all);
        assert(hit_views(out@) =~= Seq::empty());
    }
    while i < nodes.len()
        invariant
            i <= nodes@.len(),
            all == node_views(nodes@),
            forall|k: int| 0 <= k < nodes@.len() ==> (#[trigger] nodes@[k]).parts@.len() == 2,
            hits_from(Seq::empty(), all, max as nat) == hits_from(
                hit_views(out@),
                all.skip(i as int),
                max as nat,
            ),
        decreases nodes@.len() - i,
    {
        let ghost rest = all.skip(i as int);
        let ghost before = out@;
        if let Some(hit) = read_hit(&nodes[i]) {
            assert(hit_views(before.push(hit)) =~= hit_views(before).push((hit.0@, hit.1@)));
            out.push(hit);
        }
        i += 1;
        assert(rest.skip(1) =~= all.skip(i as int));
        if out.len() >= max {
            return out;
        }
    }
    out
}

fn results_in(html: &str, item: &str, link: &str, snippet: &str, max: usize) -> (r: Vec<
    (String, String),
>)
    ensures
        hit_views(r@) == hits_of(
            selected(html@, item@, seq![link@, snippet@], "href"@),
            max as nat,
        ),
{
    let mut parts: Vec<String> = Vec::new();
    parts.push(link.to_owned());
    parts.push(snippet.to_owned());
    assert(texts(parts@) =~= seq![link@, snippet@]);
    match select(html, item, &parts, "href") {
        Some(nodes) => read_hits(&nodes, max),
        None => {
            let none: Vec<(String, String)> = Vec::new();
            assert(hit_views(none@) =~= Seq::empty());
            none
        },
    }
}

/// The hits on a page of DuckDuckGo's html endpoint.
pub open spec fn ddg_hits(html: Seq<char>, max: nat) -> Seq<(Seq<char>, Seq<char>)> {
    hits_of(
        selected(html, "div.result"@, seq!["a.result__a"@, "a.result__snippet"@], "href"@),
        max,
    )
}

/// Parses results out of DuckDuckGo's html endpoint.
pub fn parse_ddg(html: &str, max: usize) -> (r: Vec<(String, String)>)
    ensures
        hit_views(r@) == ddg_hits(html@, max as nat),
{
    results_in(html, "div.result", "a.result__a", "a.result__snippet", max)
}

/// The hits on a page of cn.bing's html endpoint.
pub open spec fn bing_hits(html: Seq<char>, max: nat) -> Seq<(Seq<char>, Seq<char>)> {
    hits_of(selected(html, "li.b_algo"@, seq!["h2 a"@, "p"@], "href"@), max)
}

/// Parses results out of cn.bing's html endpoint.
pub fn parse_bing(html: &str, max: usize) -> (r: Vec<(String, String)>)
    ensures
        hit_views(r@) == bing_hits(html@, max as nat),
{
    results_in(html, "li.b_algo", "h2 a", "p", max)
}

/// No more hits are read than asked for, and each has a title.
pub proof fn law_hits_are_limited(
    before: Seq<(Seq<char>, Seq<char>)>,
    nodes: Seq<NodeView>,
    max: nat,
)
    requires
        before.len() < max,
        forall|i: int| 0 <= i < before.len() ==> (#[trigger] before[i]).0.len() > 0,
    ensures
        hits_from(before, nodes, max).len() <= max,
        forall|i: int|
            0 <= i < hits_from(before, nodes, max).len() ==> (#[trigger] hits_from(
                before,
                nodes,
                max,
            )[i]).0.len() > 0,
    decreases nodes.len(),
{
    if nodes.len() > 0 {
        let next = match hit_of(nodes[0]) {
            Some(h) => before.push(h),
            None => before,
        };
        if next.len() < max {
            law_hits_are_limited(next, nodes.skip(1), max);
        }
    }
}

/// Lines are added one after the other, none left out, as long as the page is not
/// full: those of two lists are those of the first and then those of the second. A
/// line is added without the blanks around it, and a blank one not at all.
pub proof fn law_lines_are_added_in_order(
    out: Seq<char>,
    a: Seq<Seq<char>>,
    b: Seq<Seq<char>>,
    line: Seq<char>,
    max: nat,
)
    ensures
        with_lines(out, a, max).len() < max ==> with_lines(out, a + b, max) == with_lines(
            with_lines(out, a, max),
            b,
            max,
        ),
        trimmed(line).len() > 0 ==> with_lines(out, seq![line], max) == out + trimmed(line) + seq![
            '\n',
        ],
        trimmed(line).len() == 0 ==> with_lines(out, seq![line], max) == out,
    decreases a.len(),
{
    reveal_strlit("\n");
    assert("\n"@ =~= seq!['\n']);
    let one = seq![line];
    assert(one.skip(1) =~= Seq::<Seq<char>>::empty());
    assert(with_lines(with_line(out, line), one.skip(1), max) == with_line(out, line));
    if with_lines(out, a, max).len() < max {
        if a.len() == 0 {
            assert(a + b =~= b);
        } else {
            let next = with_line(out, a[0]);
            lemma_lines_add(next, a.skip(1), max);
            law_lines_are_added_in_order(next, a.skip(1), b, line, max);
            assert((a + b).skip(1) =~= a.skip(1) + b);
            assert((a + b)[0] == a[0]);
        }
    }
}

/// The lines of the elements of a page are added one element after the other, none
/// left out, as long as the page is not full.
pub proof fn law_elements_are_added_in_order(
    out: Seq<char>,
    a: Seq<NodeView>,
    b: Seq<NodeView>,
    node: NodeView,
    max: nat,
)
    ensures
        with_nodes(out, a, max).len() < max ==> with_nodes(out, a + b, max) == with_nodes(
            with_nodes(out, a, max),
            b,
            max,
        ),
        with_nodes(out, seq![node], max) == with_lines(out, node.texts, max),
    decreases a.len(),
{
    let one = seq![node];
    let single = with_lines(out, node.texts, max);
    assert(one.skip(1) =~= Seq::<NodeView>::empty());
    assert(with_nodes(single, one.skip(1), max) == single);
    if with_nodes(out, a, max).len() < max {
        if a.len() == 0 {
            assert(a + b =~= b);
        } else {
            let next = with_lines(out, a[0].texts, max);
            lemma_nodes_add(next, a.skip(1), max);
            law_elements_are_added_in_order(next, a.skip(1), b, node, max);
            assert((a + b).skip(1) =~= a.skip(1) + b);
            assert((a + b)[0] == a[0]);
        }
    }
}

/// A page starts with its title, the first that it has, all of its text put together
/// and without the blanks around it; without a title, or with a blank one, there is
/// no such line. The text is looked for in the main element, the article and the
/// body, in this order.
pub proof fn law_a_page_starts_with_its_title(nodes: Seq<NodeView>, html: Seq<char>, max: nat)
    ensures
        text_in(html, max) == text_of(
            selected(html, "title"@, Seq::empty(), ""@),
            sections_in(html),
            max,
        ),
        nodes.len() > 0 && trimmed(joined(nodes[0].texts, Seq::empty())).len() > 0 ==> title_line(
            Some(nodes),
        ) == "title: "@ + trimmed(joined(nodes[0].texts, Seq::empty())) + "\n"@,
        nodes.len() > 0 && trimmed(joined(nodes[0].texts, Seq::empty())).len() == 0 ==> title_line(
            Some(nodes),
        ).len() == 0,
        nodes.len() == 0 ==> title_line(Some(nodes)).len() == 0,
        title_line(None).len() == 0,
        sections_in(html).len() == 3,
        sections_in(html)[0] == selected(html, "main"@, Seq::empty(), ""@),
        sections_in(html)[1] == selected(html, "article"@, Seq::empty(), ""@),
        sections_in(html)[2] == selected(html, "body"@, Seq::empty(), ""@),
{
    reveal_strlit("");
    assert(""@ =~= Seq::<char>::empty());
}

/// An element of a page of results is a hit when its first link has a title and a
/// url: by that title, with the url and below it the first snippet, or the url alone
/// where there is none.
pub proof fn law_a_hit_has_title_url_and_snippet(node: NodeView)
    requires
        node.parts.len() == 2,
    ensures
        ({
            let links = node.parts[0];
            let snippets = node.parts[1];
            let title = trimmed(joined(links[0].texts, Seq::empty()));
            let snippet = if snippets.len() > 0 {
                trimmed(joined(snippets[0].texts, Seq::empty()))
            } else {
                Seq::empty()
            };
            &&& links.len() == 0 ==> hit_of(node) is None
            &&& links.len() > 0 && links[0].attribute is None ==> hit_of(node) is None
            &&& links.len() > 0 && title.len() == 0 ==> hit_of(node) is None
            &&& links.len() > 0 && links[0].attribute is Some ==> {
                let url = links[0].attribute->0;
                &&& url.len() == 0 ==> hit_of(node) is None
                &&& url.len() > 0 && title.len() > 0 ==> hit_of(node) == Some(
                    (title, trimmed(url + seq!['\n'] + snippet)),
                )
            }
        }),
{
    reveal_strlit("");
    reveal_strlit("\n");
    assert(""@ =~= Seq::<char>::empty());
    assert("\n"@ =~= seq!['\n']);
}

/// The hits of a page are those of its elements in order, none left out, up to the
/// limit: `at` are the positions of the elements that are hits, the first of them if
/// there are more than the limit.
pub proof fn law_every_hit_of_a_page_is_read(nodes: Seq<NodeView>, max: nat) -> (at: Seq<int>)
    requires
        max > 0,
    ensures
        ({
            let hits = hits_of(Some(nodes), max);
            &&& hits.len() == at.len()
            &&& at.len() <= max
            &&& forall|i: int|
                0 <= i < at.len() ==> 0 <= #[trigger] at[i] < nodes.len() && hit_of(nodes[at[i]])
                    == Some(hits[i])
            &&& forall|i: int, j: int|
                0 <= i < j < at.len() ==> #[trigger] at[i] < #[trigger] at[j]
            &&& forall|k: int|
                0 <= k < nodes.len() && hit_of(nodes[k]) is Some && (at.len() < max || k
                    < at.last()) ==> #[trigger] at.contains(k)
        }),
{
    let none = Seq::<(Seq<char>, Seq<char>)>::empty();
    let at = lemma_hits_at(none, nodes, max);
    let hits = hits_of(Some(nodes), max);
    assert(hits == hits_from(none, nodes, max));
    assert forall|i: int| 0 <= i < at.len() implies 0 <= #[trigger] at[i] < nodes.len() && hit_of(
        nodes[at[i]],
    ) == Some(hits[i]) by {
        assert(hits[none.len() + i] == hits[i]);
    }
    at
}

proof fn lemma_hits_at(
    before: Seq<(Seq<char>, Seq<char>)>,
    nodes: Seq<NodeView>,
    max: nat,
) -> (at: Seq<int>)
    requires
        before.len() < max,
    ensures
        ({
            let hits = hits_from(before, nodes, max);
            &&& hits.len() == before.len() + at.len()
            &&& hits.len() <= max
            &&& forall|i: int| 0 <= i < before.len() ==> hits[i] == before[i]
            &&& forall|i: int|
                0 <= i < at.len() ==> 0 <= #[trigger] at[i] < nodes.len() && hit_of(nodes[at[i]])
                    == Some(hits[before.len() + i])
            &&& forall|i: int, j: int|
                0 <= i < j < at.len() ==> #[trigger] at[i] < #[trigger] at[j]
            &&& forall|k: int|
                0 <= k < nodes.len() && hit_of(nodes[k]) is Some && (hits.len() < max || (at.len()
                    > 0 && k < at.last())) ==> #[trigger] at.contains(k)
        }),
    decreases nodes.len(),
{
    if nodes.len() == 0 {
        Seq::empty()
    } else {
        let here = hit_of(nodes[0]);
        let next = match here {
            Some(h) => before.push(h),
            None => before,
        };
        let hits = hits_from(before, nodes, max);
        if next.len() >= max {
            let at = seq![0int];
            assert(at[0] == 0);
            at
        } else {
            let rest = nodes.skip(1);
            let later = lemma_hits_at(next, rest, max);
            let moved = Seq::new(later.len(), |i: int| later[i] + 1);
            let at = if here is Some {
                seq![0int] + moved
            } else {
                moved
            };
            let d: int = if here is Some {
                1
            } else {
                0
            };
            assert(hits == hits_from(next, rest, max));
            assert forall|i: int| 0 <= i < before.len() implies hits[i] == before[i] by {
                assert(next[i] == before[i]);
            }
            assert forall|i: int| 0 <= i < at.len() implies 0 <= #[trigger] at[i] < nodes.len()
                && hit_of(nodes[at[i]]) == Some(hits[before.len() + i]) by {
                if i >= d {
                    assert(at[i] == later[i - d] + 1);
                    assert(rest[later[i - d]] == nodes[at[i]]);
                    assert(hits[next.len() + (i - d)] == hits[before.len() + i]);
                } else {
                    assert(hits[before.len() as int] == next[before.len() as int]);
                }
            }
            assert forall|i: int, j: int| 0 <= i < j < at.len() implies #[trigger] at[i]
                < #[trigger] at[j] by {
                assert(at[j] == later[j - d] + 1);
                if i >= d {
                    assert(at[i] == later[i - d] + 1);
                }
            }
            assert forall|k: int|
                0 <= k < nodes.len() && hit_of(nodes[k]) is Some && (hits.len() < max || (at.len()
                    > 0 && k < at.last())) implies #[trigger] at.contains(k) by {
                if k == 0 {
                    assert(at[0] == 0);
                } else {
                    assert(rest[k - 1] == nodes[k]);
                    if hits.len() >= max {
                        assert(later.len() > 0);
                        assert(at.last() == later.last() + 1);
                    }
                    assert(later.contains(k - 1));
                    let i = choose|i: int| 0 <= i < later.len() && later[i] == k - 1;
                    assert(at[i + d] == k);
                }
            }
            at
        }
    }
}

/// A page of results is searched for what its engine calls a result, its link and
/// its snippet.
pub proof fn law_each_engine_is_read_its_own_way(html: Seq<char>, max: nat)
    ensures
        ddg_hits(html, max) == hits_of(
            selected(html, "div.result"@, seq!["a.result__a"@, "a.result__snippet"@], "href"@),
            max,
        ),
        bing_hits(html, max) == hits_of(
            selected(html, "li.b_algo"@, seq!["h2 a"@, "p"@], "href"@),
            max,
        ),
{
}

/// A page that is not longer than its limit is told whole, and of a longer one as many
/// characters as the limit says, from its start.
pub proof fn law_a_page_is_cut_at_its_limit(
    titles: Option<Seq<NodeView>>,
    sections: Seq<Option<Seq<NodeView>>>,
    max: nat,
)
    ensures
        page_of(titles, sections, max).len() <= max ==> text_of(titles, sections, max) == trimmed(
            page_of(titles, sections, max),
        ),
        page_of(titles, sections, max).len() > max ==> text_of(titles, sections, max) == trimmed(
            page_of(titles, sections, max).take(max as int),
        ),
{
}

/// A page whose selections hold no text besides white space is its title alone.
pub proof fn law_a_page_without_text_is_its_title(
    titles: Option<Seq<NodeView>>,
    sections: Seq<Option<Seq<NodeView>>>,
    max: nat,
)
    requires
        forall|i: int, m: int, k: int|
            0 <= i < sections.len() && sections[i] is Some && 0 <= m < sections[i]->0.len() && 0
                <= k < sections[i]->0[m].texts.len() ==> trimmed(
                #[trigger] sections[i]->0[m].texts[k],
            ).len() == 0,
    ensures
        page_of(titles, sections, max) == title_line(titles),
{
    assert forall|i: int| 0 <= i < sections.len() implies blank_section(#[trigger] sections[i]) by {
        if let Some(nodes) = sections[i] {
            assert forall|m: int| 0 <= m < nodes.len() implies blank_node(#[trigger] nodes[m]) by {
                assert forall|k: int| 0 <= k < nodes[m].texts.len() implies trimmed(
                    #[trigger] nodes[m].texts[k],
                ).len() == 0 by {
                    assert(trimmed(sections[i]->0[m].texts[k]).len() == 0);
                }
            }
        }
    }
    lemma_blank_sections(title_line(titles), sections, max);
}

proof fn lemma_blank_sections(out: Seq<char>, sections: Seq<Option<Seq<NodeView>>>, max: nat)
    requires
        forall|i: int| 0 <= i < sections.len() ==> blank_section(#[trigger] sections[i]),
    ensures
        with_sections(out, sections, max) == out,
    decreases sections.len(),
{
    if sections.len() > 0 {
        assert(blank_section(sections[0]));
        if let Some(nodes) = sections[0] {
            lemma_blank_nodes(out, nodes, max);
        }
        let rest = sections.skip(1);
        assert forall|i: int| 0 <= i < rest.len() implies blank_section(#[trigger] rest[i]) by {
            assert(rest[i] == sections[i + 1]);
        }
        lemma_blank_sections(out, rest, max);
    }
}

} // verus!
