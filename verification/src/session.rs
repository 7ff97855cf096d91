//! Sessions with the ai at the package menu: choosing from a list, finding
//! packages by conversation, and picking from what it found.

use crate::chat::{
    lemma_message_views_push, message_views, text_message, Message, MessageView,
};
use crate::json::rendered;
use crate::menu::{input_picks, NumberMenu};
use crate::packages::{
    column, listing, listing_of, number_column, pkg_name, pkg_target, AnyPkg, AurPkg, PkgColors,
};
use crate::prompt::YesNoEdit;
use crate::reply::{
    candidate_views, chosen, index_list, select_messages, select_prompt, selection_json,
    selection_tree, with_history, Candidate, CandidateView, Selection, SELECT_SYSTEM,
};
use crate::style::{paint, painted};
use crate::text::{
    join_strs, joined, lemma_texts_push, or_empty, same, strs, text_or_empty, texts, trim, trimmed,
};
use vstd::prelude::*;

verus! {

/// A conversation about a list of packages: the list as the model sees it, the
/// turns so far, and the request to answer next.
#[derive(Debug)]
pub struct AiMenu {
    pub listing: String,
    pub history: Vec<Message>,
    pub query: String,
}

/// What an [`AiMenu`] stands for.
pub struct AiMenuView {
    pub listing: Seq<char>,
    pub history: Seq<MessageView>,
    pub query: Seq<char>,
}

impl View for AiMenu {
    type V = AiMenuView;

    open spec fn view(&self) -> AiMenuView {
        AiMenuView {
            listing: self.listing@,
            history: message_views(self.history@),
            query: self.query@,
        }
    }
}

impl AiMenuView {
    /// The messages that ask the model to choose among `max` packages.
    pub open spec fn asked(self, max: nat) -> Seq<MessageView> {
        with_history(
            SELECT_SYSTEM@,
            self.history,
            select_prompt(self.listing, self.query, max),
        )
    }

    /// The conversation with a turn added: the request, and the answer as the
    /// model gave it.
    pub open spec fn recorded(self, indices: Seq<usize>, reason: Seq<char>) -> AiMenuView {
        AiMenuView {
            history: self.history + seq![
                text_message("user"@, self.query),
                text_message("assistant"@, rendered(selection_tree(indices, reason))),
            ],
            ..self
        }
    }

    /// The conversation with another request.
    pub open spec fn followed(self, query: Seq<char>) -> AiMenuView {
        AiMenuView { query, ..self }
    }
}

/// Whether numbers are those of entries on a list.
pub open spec fn on_list(indices: Seq<usize>, len: nat) -> bool {
    forall|i: int| 0 <= i < indices.len() ==> 1 <= #[trigger] indices[i] <= len
}

/// The names of chosen packages.
pub open spec fn names_of(pkgs: Seq<AnyPkg>, indices: Seq<usize>) -> Seq<Seq<char>> {
    Seq::new(indices.len(), |i: int| pkgs[indices[i] - 1].name_of())
}

/// The targets of chosen packages.
pub open spec fn targets_of(pkgs: Seq<AnyPkg>, namespace: Seq<char>, indices: Seq<usize>) -> Seq<
    Seq<char>,
> {
    Seq::new(indices.len(), |i: int| pkgs[indices[i] - 1].target_of(namespace))
}

/// What the answer to a choice of the model leads to.
#[derive(Debug)]
pub enum AiStep {
    /// Take these targets.
    Take(Vec<String>),
    /// Ask for another request.
    Edit,
    /// Stop without any. Whether that is because nothing matched.
    Stop(bool),
}

impl AiMenu {
    /// Starts a conversation about a list of packages.
    pub fn new(pkgs: &Vec<AnyPkg>, query: &str) -> (r: Self)
        ensures
            r@ == (AiMenuView {
                listing: listing_of(pkgs@),
                history: Seq::empty(),
                query: query@,
            }),
    {
        let r = AiMenu { listing: listing(pkgs), history: Vec::new(), query: query.to_owned() };
        assert(r@.history =~= Seq::empty());
        r
    }

    /// The messages that ask the model to choose among `max` packages.
    pub fn messages(&self, max: usize) -> (r: Vec<Message>)
        ensures
            message_views(r@) == self@.asked(max as nat),
    {
        select_messages(self.listing.as_str(), self.query.as_str(), max, &self.history)
    }

    /// Records a turn, so that a follow up carries it.
    pub fn record(&mut self, selection: &Selection)
        ensures
            final(self)@ == old(self)@.recorded(selection.indices@, selection.reason@),
    {
        let asked = Message::user(self.query.clone());
        let answered = Message::assistant_text(selection_json(selection));
        proof {
            lemma_message_views_push(self.history@, asked);
            lemma_message_views_push(self.history@.push(asked), answered);
        }
        self.history.push(asked);
        self.history.push(answered);
        assert(self@.history =~= old(self)@.recorded(
            selection.indices@,
            selection.reason@,
        ).history);
    }

    /// Takes a follow up. Whether there is one: a blank one ends the
    /// conversation.
    pub fn follow_up(&mut self, text: &str) -> (r: bool)
        ensures
            r == (trimmed(text@).len() > 0),
            final(self)@ == (if r {
                old(self)@.followed(trimmed(text@))
            } else {
                old(self)@
            }),
    {
        let text = trim(text);
        if text.is_empty() {
            return false;
        }
        self.query = text.to_owned();
        true
    }
}

/// The names of chosen packages, for the question whether to take them.
pub fn selected_names(pkgs: &Vec<AnyPkg>, selection: &Selection) -> (r: String)
    requires
        on_list(selection.indices@, pkgs@.len()),
    ensures
        r@ == joined(names_of(pkgs@, selection.indices@), " "@),
{
    let mut out: Vec<&str> = Vec::new();
    let mut i: usize = 0;
    while i < selection.indices.len()
        invariant
            i <= selection.indices@.len(),
            on_list(selection.indices@, pkgs@.len()),
            out@.len() == i,
            forall|k: int|
                0 <= k < i ==> (#[trigger] out@[k])@ == pkgs@[selection.indices@[k] - 1].name_of(),
        decreases selection.indices@.len() - i,
    {
        let n: usize = selection.indices[i];
        out.push(pkg_name(&pkgs[n - 1]));
        i += 1;
    }
    assert(strs(out@) =~= names_of(pkgs@, selection.indices@));
    join_strs(out.as_slice(), " ")
}

/// Takes the answer to a choice of the model. Nothing but what it chose from the
/// list is taken, and nothing at all where it chose nothing.
pub fn ai_step(
    answer: YesNoEdit,
    namespace: &str,
    pkgs: &Vec<AnyPkg>,
    selection: &Selection,
) -> (r: AiStep)
    requires
        on_list(selection.indices@, pkgs@.len()),
    ensures
        match r {
            AiStep::Take(list) => answer == YesNoEdit::Yes && selection.indices@.len() > 0
                && texts(list@) == targets_of(pkgs@, namespace@, selection.indices@),
            AiStep::Edit => answer == YesNoEdit::Edit,
            AiStep::Stop(nothing) => answer != YesNoEdit::Edit && (answer == YesNoEdit::Yes
                ==> selection.indices@.len() == 0) && nothing == (selection.indices@.len() == 0),
        },
{
    match answer {
        YesNoEdit::Yes if selection.indices.len() > 0 => {
            let mut out: Vec<String> = Vec::new();
            let mut i: usize = 0;
            while i < selection.indices.len()
                invariant
                    i <= selection.indices@.len(),
                    on_list(selection.indices@, pkgs@.len()),
                    out@.len() == i,
                    forall|k: int|
                        0 <= k < i ==> (#[trigger] out@[k])@ == pkgs@[selection.indices@[k]
                            - 1].target_of(namespace@),
                decreases selection.indices@.len() - i,
            {
                let n: usize = selection.indices[i];
                out.push(pkg_target(namespace, &pkgs[n - 1]));
                i += 1;
            }
            assert(texts(out@) =~= targets_of(pkgs@, namespace@, selection.indices@));
            AiStep::Take(out)
        },
        YesNoEdit::Edit => AiStep::Edit,
        _ => AiStep::Stop(selection.indices.len() == 0),
    }
}

/// The model cannot pull in a package the user was not shown: whatever it
/// replies, each target that is taken is that of a package on the list.
pub proof fn law_the_ai_only_picks_from_the_list(
    value: crate::json::JsonView,
    pkgs: Seq<AnyPkg>,
    namespace: Seq<char>,
    indices: Seq<usize>,
    max: usize,
    i: int,
)
    requires
        max == pkgs.len(),
        chosen(indices, index_list(value), max),
        0 <= i < indices.len(),
    ensures
        on_list(indices, pkgs.len()),
        exists|k: int|
            0 <= k < pkgs.len() && targets_of(pkgs, namespace, indices)[i] == (
            #[trigger] pkgs[k]).target_of(namespace),
{
    assert forall|j: int| 0 <= j < indices.len() implies 1 <= #[trigger] indices[j]
        <= pkgs.len() by {
        assert(indices.contains(indices[j]));
    }
    let k = indices[i] - 1;
    assert(targets_of(pkgs, namespace, indices)[i] == pkgs[k].target_of(namespace));
}

/// A follow up carries the turn before it: the request, and the answer as the
/// model gave it.
pub proof fn law_a_follow_up_carries_the_conversation(
    menu: AiMenuView,
    indices: Seq<usize>,
    reason: Seq<char>,
    query: Seq<char>,
    max: nat,
)
    ensures
        menu.recorded(indices, reason).followed(query).asked(max) == seq![
            text_message("system"@, SELECT_SYSTEM@),
        ] + menu.history + seq![
            text_message("user"@, menu.query),
            text_message("assistant"@, rendered(selection_tree(indices, reason))),
            text_message("user"@, select_prompt(menu.listing, query, max)),
        ],
{
    assert(menu.recorded(indices, reason).followed(query).asked(max) =~= seq![
        text_message("system"@, SELECT_SYSTEM@),
    ] + menu.history + seq![
        text_message("user"@, menu.query),
        text_message("assistant"@, rendered(selection_tree(indices, reason))),
        text_message("user"@, select_prompt(menu.listing, query, max)),
    ]);
}

/// Candidates without those that are called like the one before them.
pub open spec fn deduped(list: Seq<CandidateView>) -> Seq<CandidateView>
    decreases list.len(),
{
    if list.len() <= 1 {
        list
    } else {
        let rest = deduped(list.drop_last());
        if list[list.len() - 1].name == list[list.len() - 2].name {
            rest
        } else {
            rest.push(list.last())
        }
    }
}

/// Drops the candidates that are called like the one before them.
pub fn dedup_candidates(list: Vec<Candidate>) -> (r: Vec<Candidate>)
    ensures
        candidate_views(r@) == deduped(candidate_views(list@)),
{
    let ghost all = candidate_views(list@);
    let mut out: Vec<Candidate> = Vec::new();
    let mut i: usize = 0;
    proof {
        assert(all.take(0) =~= Seq::<CandidateView>::empty());
        assert(candidate_views(out@) =~= Seq::<CandidateView>::empty());
    }
    while i < list.len()
        invariant
            i <= list@.len(),
            all == candidate_views(list@),
            candidate_views(out@) == deduped(all.take(i as int)),
        decreases list@.len() - i,
    {
        proof {
            let t = all.take(i + 1);
            assert(t.drop_last() =~= all.take(i as int));
            assert(t.last() == list@[i as int]@);
            if i > 0 {
                assert(t[t.len() - 2] == list@[i - 1]@);
            }
        }
        if i == 0 || !same(list[i].name.as_str(), list[i - 1].name.as_str()) {
            let c = list[i].clone();
            proof {
                assert(candidate_views(out@.push(c)) =~= candidate_views(out@).push(c@));
                if i == 0 {
                    assert(all.take(1) =~= seq![c@]);
                    assert(candidate_views(out@.push(c)) =~= seq![c@]);
                }
            }
            out.push(c);
        }
        i += 1;
    }
    assert(all.take(i as int) =~= all);
    out
}

/// What a repository knows of a name: its description, if it has the package.
#[derive(Debug)]
pub struct Lookup {
    pub repo: String,
    pub found: bool,
    pub desc: Option<String>,
}

/// The first repository, from position `i` on, that has the package.
pub open spec fn first_found(lookups: Seq<Lookup>, i: int) -> Option<int>
    decreases lookups.len() - i,
{
    if i < 0 || i >= lookups.len() {
        None
    } else if lookups[i].found {
        Some(i)
    } else {
        first_found(lookups, i + 1)
    }
}

/// The first package, from position `i` on, with a name.
pub open spec fn first_named(pkgs: Seq<AurPkg>, name: Seq<char>, i: int) -> Option<int>
    decreases pkgs.len() - i,
{
    if i < 0 || i >= pkgs.len() {
        None
    } else if pkgs[i].name@ == name {
        Some(i)
    } else {
        first_named(pkgs, name, i + 1)
    }
}

/// Where a candidate comes from and what it is: the first repository that has
/// it, and otherwise the AUR, if it has a package of exactly that name.
pub open spec fn resolved_of(
    lookups: Seq<Lookup>,
    aur: Seq<AurPkg>,
    namespace: Seq<char>,
    name: Seq<char>,
) -> Option<(Seq<char>, Seq<char>)> {
    match first_found(lookups, 0) {
        Some(i) => Some((lookups[i].repo@, or_empty(lookups[i].desc))),
        None => match first_named(aur, name, 0) {
            Some(i) => Some((namespace, or_empty(aur[i].desc))),
            None => None,
        },
    }
}

/// Resolves a candidate package name to its repository and description.
pub fn resolve_candidate(
    lookups: &Vec<Lookup>,
    aur: &Vec<AurPkg>,
    namespace: &str,
    name: &str,
) -> (r: Option<(String, String)>)
    ensures
        match r {
            Some(found) => resolved_of(lookups@, aur@, namespace@, name@) == Some(
                (found.0@, found.1@),
            ),
            None => resolved_of(lookups@, aur@, namespace@, name@) is None,
        },
{
    // Exact lookups in the repositories first.
    let mut i: usize = 0;
    while i < lookups.len()
        invariant
            i <= lookups@.len(),
            first_found(lookups@, 0) == first_found(lookups@, i as int),
        decreases lookups@.len() - i,
    {
        if lookups[i].found {
            return Some((lookups[i].repo.clone(), text_or_empty(&lookups[i].desc).to_owned()));
        }
        i += 1;
    }
    // The AUR.
    let mut j: usize = 0;
    while j < aur.len()
        invariant
            j <= aur@.len(),
            first_found(lookups@, 0) is None,
            first_named(aur@, name@, 0) == first_named(aur@, name@, j as int),
        decreases aur@.len() - j,
    {
        if same(aur[j].name.as_str(), name) {
            return Some((namespace.to_owned(), text_or_empty(&aur[j].desc).to_owned()));
        }
        j += 1;
    }
    None
}

proof fn lemma_first_found(lookups: Seq<Lookup>, i: int)
    requires
        0 <= i,
    ensures
        match first_found(lookups, i) {
            Some(k) => i <= k < lookups.len() && lookups[k].found,
            None => forall|k: int| i <= k < lookups.len() ==> !(#[trigger] lookups[k]).found,
        },
    decreases lookups.len() - i,
{
    if i < lookups.len() && !lookups[i].found {
        lemma_first_found(lookups, i + 1);
    }
}

proof fn lemma_first_named(pkgs: Seq<AurPkg>, name: Seq<char>, i: int)
    requires
        0 <= i,
    ensures
        match first_named(pkgs, name, i) {
            Some(k) => i <= k < pkgs.len() && pkgs[k].name@ == name,
            None => forall|k: int| i <= k < pkgs.len() ==> (#[trigger] pkgs[k]).name@ != name,
        },
    decreases pkgs.len() - i,
{
    if i < pkgs.len() && pkgs[i].name@ != name {
        lemma_first_named(pkgs, name, i + 1);
    }
}

/// A made up package is dropped: a name resolves just when a repository has it
/// or the AUR has a package of exactly that name.
pub proof fn law_a_made_up_package_is_dropped(
    lookups: Seq<Lookup>,
    aur: Seq<AurPkg>,
    namespace: Seq<char>,
    name: Seq<char>,
)
    ensures
        resolved_of(lookups, aur, namespace, name) is Some <==> {
            ||| exists|i: int| 0 <= i < lookups.len() && (#[trigger] lookups[i]).found
            ||| exists|i: int| 0 <= i < aur.len() && (#[trigger] aur[i]).name@ == name
        },
{
    lemma_first_found(lookups, 0);
    lemma_first_named(aur, name, 0);
}

/// The next request of a conversation; none if it is blank.
pub fn next_request(text: &str) -> (r: Option<String>)
    ensures
        match r {
            Some(q) => trimmed(text@).len() > 0 && q@ == trimmed(text@),
            None => trimmed(text@).len() == 0,
        },
{
    let text = trim(text);
    if text.is_empty() {
        None
    } else {
        Some(text.to_owned())
    }
}

/// A candidate that exists, with where it comes from and what it is.
#[derive(Debug)]
pub struct Offer {
    pub candidate: Candidate,
    pub repo: String,
    pub desc: String,
}

/// The repository of an offer as it is shown. The internal name of the AUR is an
/// implementation detail that is never shown.
pub fn shown_repo<'a>(repo: &'a str, namespace: &str) -> (r: &'a str)
    ensures
        r@ == (if repo@ == namespace@ {
            "aur"@
        } else {
            repo@
        }),
{
    if same(repo, namespace) {
        "aur"
    } else {
        repo
    }
}

/// The line of an offer: its number, repository, name and description.
pub open spec fn offer_line_of(
    colors: PkgColors,
    n: nat,
    width: nat,
    repo: Seq<char>,
    offer: Offer,
) -> Seq<char> {
    painted(colors.number, column(n, width)) + " "@ + repo + "/"@ + painted(
        colors.name,
        offer.candidate.name@,
    ) + " - "@ + offer.desc@
}

/// Writes the line of an offer; `repo` is its repository as it is shown.
pub fn offer_line(colors: &PkgColors, n: usize, width: usize, repo: &str, offer: &Offer) -> (r:
    String)
    ensures
        r@ == offer_line_of(*colors, n as nat, width as nat, repo@, *offer),
{
    let mut out = paint(colors.number, number_column(n, width).as_str());
    out.append(" ");
    out.append(repo);
    out.append("/");
    out.append(paint(colors.name, offer.candidate.name.as_str()).as_str());
    out.append(" - ");
    out.append(offer.desc.as_str());
    out
}

/// Whether an answer declines all offers: it is blank, or the letter q.
pub open spec fn declines(answer: Seq<char>) -> bool {
    trimmed(answer).len() == 0 || trimmed(answer) == "q"@ || trimmed(answer) == "Q"@
}

/// Whether the offer at position `i` is taken: all are without confirmation, and
/// otherwise those that the answer picks.
pub open spec fn takes(no_confirm: bool, answer: Seq<char>, i: int) -> bool {
    no_confirm || (!declines(answer) && input_picks(answer, (i + 1) as usize, ""@))
}

/// The target of an offer.
pub open spec fn offer_target(offer: Offer) -> Seq<char> {
    offer.repo@ + "/"@ + offer.candidate.name@
}

/// The targets of the offers that are taken.
pub open spec fn taken(no_confirm: bool, answer: Seq<char>, offers: Seq<Offer>) -> Seq<Seq<char>>
    decreases offers.len(),
{
    if offers.len() == 0 {
        Seq::empty()
    } else {
        let rest = taken(no_confirm, answer, offers.drop_last());
        if takes(no_confirm, answer, offers.len() - 1) {
            rest.push(offer_target(offers.last()))
        } else {
            rest
        }
    }
}

/// Takes the answer to a list of offers; none is asked for without confirmation.
pub fn take_offers(no_confirm: bool, answer: &str, offers: &Vec<Offer>) -> (r: Vec<String>)
    ensures
        texts(r@) == taken(no_confirm, answer@, offers@),
{
    let mut out: Vec<String> = Vec::new();
    let word = trim(answer);
    let declined = word.is_empty() || same(word, "q") || same(word, "Q");
    let menu = NumberMenu::new(answer);
    let count: usize = offers.len();
    let mut i: usize = 0;
    proof {
        assert(offers@.take(0) =~= Seq::<Offer>::empty());
        assert(texts(out@) =~= Seq::<Seq<char>>::empty());
    }
    while i < count
        invariant
            i <= count == offers@.len(),
            declined == declines(answer@),
            forall|n: usize, word: Seq<char>| #[trigger]
                menu.picks(n, word) == input_picks(answer@, n, word),
            texts(out@) == taken(no_confirm, answer@, offers@.take(i as int)),
        decreases count - i,
    {
        proof {
            assert(offers@.take(i + 1).drop_last() =~= offers@.take(i as int));
            assert(offers@.take(i + 1).last() == offers@[i as int]);
        }
        if no_confirm || (!declined && menu.contains(i + 1, "")) {
            let mut target = offers[i].repo.clone();
            target.append("/");
            target.append(offers[i].candidate.name.as_str());
            proof {
                lemma_texts_push(out@, target);
            }
            out.push(target);
        }
        i += 1;
    }
    assert(offers@.take(i as int) =~= offers@);
    out
}

/// Only what was offered is installed: each target is that of an offer, which
/// was found in a repository or the AUR.
pub proof fn law_only_offers_are_taken(
    no_confirm: bool,
    answer: Seq<char>,
    offers: Seq<Offer>,
    target: Seq<char>,
)
    requires
        taken(no_confirm, answer, offers).contains(target),
    ensures
        exists|k: int| 0 <= k < offers.len() && offer_target(#[trigger] offers[k]) == target,
    decreases offers.len(),
{
    if offers.len() > 0 {
        let prev = offers.drop_last();
        let rest = taken(no_confirm, answer, prev);
        let list = taken(no_confirm, answer, offers);
        let i = choose|i: int| 0 <= i < list.len() && list[i] == target;
        if i < rest.len() {
            assert(rest[i] == target);
            law_only_offers_are_taken(no_confirm, answer, prev, target);
            let k = choose|k: int|
                0 <= k < prev.len() && offer_target(#[trigger] prev[k]) == target;
            assert(offers[k] == prev[k]);
        } else {
            assert(offers[offers.len() - 1] == offers.last());
        }
    }
}

/// Declining takes nothing.
pub proof fn law_declining_takes_nothing(answer: Seq<char>, offers: Seq<Offer>)
    requires
        declines(answer),
    ensures
        taken(false, answer, offers).len() == 0,
    decreases offers.len(),
{
    if offers.len() > 0 {
        law_declining_takes_nothing(answer, offers.drop_last());
    }
}

/// Dropping repeated candidates keeps the first of each run of candidates with the
/// same name, and keeps them in order: `at` are the positions of those that are not
/// called like the one right before them.
pub proof fn law_the_first_of_repeated_candidates_stays(list: Seq<CandidateView>) -> (at: Seq<int>)
    ensures
        deduped(list).len() == at.len(),
        forall|i: int|
            0 <= i < at.len() ==> 0 <= #[trigger] at[i] < list.len() && deduped(list)[i]
                == list[at[i]] && (at[i] == 0 || list[at[i]].name != list[at[i] - 1].name),
        forall|i: int, j: int| 0 <= i < j < at.len() ==> #[trigger] at[i] < #[trigger] at[j],
        forall|k: int|
            0 <= k < list.len() && (k == 0 || list[k].name != list[k - 1].name)
                ==> #[trigger] at.contains(k),
    decreases list.len(),
{
    let all = deduped(list);
    if list.len() == 0 {
        Seq::empty()
    } else if list.len() == 1 {
        let at = seq![0int];
        assert(at[0] == 0);
        at
    } else {
        let prev = list.drop_last();
        let before = law_the_first_of_repeated_candidates_stays(prev);
        let rest = deduped(prev);
        let n = list.len() - 1;
        let differs = list[n].name != list[n - 1].name;
        let at = if differs {
            before.push(n)
        } else {
            before
        };
        assert forall|i: int| 0 <= i < at.len() implies 0 <= #[trigger] at[i] < list.len() && all[i]
            == list[at[i]] && (at[i] == 0 || list[at[i]].name != list[at[i] - 1].name) by {
            if i < before.len() {
                assert(at[i] == before[i]);
                assert(all[i] == rest[i]);
                assert(prev[before[i]] == list[before[i]]);
                if before[i] > 0 {
                    assert(prev[before[i] - 1] == list[before[i] - 1]);
                }
            }
        }
        assert forall|i: int, j: int| 0 <= i < j < at.len() implies #[trigger] at[i]
            < #[trigger] at[j] by {
            assert(at[i] == before[i]);
            if j < before.len() {
                assert(at[j] == before[j]);
            }
        }
        assert forall|k: int|
            0 <= k < list.len() && (k == 0 || list[k].name != list[k
                - 1].name) implies #[trigger] at.contains(k) by {
            if k < n {
                assert(prev[k] == list[k]);
                if k > 0 {
                    assert(prev[k - 1] == list[k - 1]);
                }
                assert(before.contains(k));
                let i = choose|i: int| 0 <= i < before.len() && before[i] == k;
                assert(at[i] == k);
            } else {
                assert(at[before.len() as int] == k);
            }
        }
        at
    }
}

/// A candidate comes from the first repository that has it, whichever that is, and
/// from the AUR only if no repository does; it is described by what was found there.
pub proof fn law_the_first_repository_wins(
    lookups: Seq<Lookup>,
    aur: Seq<AurPkg>,
    namespace: Seq<char>,
    name: Seq<char>,
    i: int,
)
    ensures
        0 <= i < lookups.len() && lookups[i].found && (forall|k: int|
            0 <= k < i ==> !(#[trigger] lookups[k]).found) ==> resolved_of(
            lookups,
            aur,
            namespace,
            name,
        ) == Some(
            (
                lookups[i].repo@,
                match lookups[i].desc {
                    Some(d) => d@,
                    None => Seq::empty(),
                },
            ),
        ),
        0 <= i < aur.len() && aur[i].name@ == name && (forall|k: int|
            0 <= k < i ==> (#[trigger] aur[k]).name@ != name) && (forall|k: int|
            0 <= k < lookups.len() ==> !(#[trigger] lookups[k]).found) ==> resolved_of(
            lookups,
            aur,
            namespace,
            name,
        ) == Some(
            (
                namespace,
                match aur[i].desc {
                    Some(d) => d@,
                    None => Seq::empty(),
                },
            ),
        ),
{
    lemma_first_found(lookups, 0);
    lemma_first_named(aur, name, 0);
    if 0 <= i < lookups.len() && lookups[i].found && (forall|k: int|
        0 <= k < i ==> !(#[trigger] lookups[k]).found) {
        lemma_first_found_at(lookups, 0, i);
    }
    if 0 <= i < aur.len() && aur[i].name@ == name && (forall|k: int|
        0 <= k < i ==> (#[trigger] aur[k]).name@ != name) {
        lemma_first_named_at(aur, name, 0, i);
    }
}

proof fn lemma_first_found_at(lookups: Seq<Lookup>, j: int, i: int)
    requires
        0 <= j <= i < lookups.len(),
        lookups[i].found,
        forall|k: int| 0 <= k < i ==> !(#[trigger] lookups[k]).found,
    ensures
        first_found(lookups, j) == Some(i),
    decreases i - j,
{
    if j < i {
        assert(!lookups[j].found);
        lemma_first_found_at(lookups, j + 1, i);
    }
}

proof fn lemma_first_named_at(pkgs: Seq<AurPkg>, name: Seq<char>, j: int, i: int)
    requires
        0 <= j <= i < pkgs.len(),
        pkgs[i].name@ == name,
        forall|k: int| 0 <= k < i ==> (#[trigger] pkgs[k]).name@ != name,
    ensures
        first_named(pkgs, name, j) == Some(i),
    decreases i - j,
{
    if j < i {
        assert(pkgs[j].name@ != name);
        lemma_first_named_at(pkgs, name, j + 1, i);
    }
}

/// Every offer that the answer picks is taken, in order: `at` are the positions of
/// these offers. Without confirmation all of them are taken; with it none is by an
/// answer that is blank or the letter q, and by any other those whose numbers it
/// picks.
pub proof fn law_every_picked_offer_is_taken(
    no_confirm: bool,
    answer: Seq<char>,
    offers: Seq<Offer>,
) -> (at: Seq<int>)
    requires
        offers.len() <= usize::MAX,
    ensures
        taken(no_confirm, answer, offers).len() == at.len(),
        forall|i: int|
            0 <= i < at.len() ==> 0 <= #[trigger] at[i] < offers.len() && taken(
                no_confirm,
                answer,
                offers,
            )[i] == offers[at[i]].repo@ + seq!['/'] + offers[at[i]].candidate.name@ && (no_confirm
                || input_picks(answer, (at[i] + 1) as usize, Seq::empty())),
        forall|i: int, j: int| 0 <= i < j < at.len() ==> #[trigger] at[i] < #[trigger] at[j],
        forall|k: int|
            0 <= k < offers.len() && (no_confirm || (trimmed(answer).len() > 0 && trimmed(answer)
                != seq!['q'] && trimmed(answer) != seq!['Q'] && input_picks(
                answer,
                (k + 1) as usize,
                Seq::empty(),
            ))) ==> #[trigger] at.contains(k),
        !no_confirm && (trimmed(answer).len() == 0 || trimmed(answer) == seq!['q'] || trimmed(
            answer,
        ) == seq!['Q']) ==> at.len() == 0,
    decreases offers.len(),
{
    reveal_strlit("");
    reveal_strlit("/");
    reveal_strlit("q");
    reveal_strlit("Q");
    assert(""@ =~= Seq::<char>::empty());
    assert("/"@ =~= seq!['/']);
    assert("q"@ =~= seq!['q']);
    assert("Q"@ =~= seq!['Q']);
    let all = taken(no_confirm, answer, offers);
    if offers.len() == 0 {
        Seq::empty()
    } else {
        let prev = offers.drop_last();
        let before = law_every_picked_offer_is_taken(no_confirm, answer, prev);
        let rest = taken(no_confirm, answer, prev);
        let n = offers.len() - 1;
        let at = if takes(no_confirm, answer, n) {
            before.push(n)
        } else {
            before
        };
        assert forall|i: int| 0 <= i < at.len() implies 0 <= #[trigger] at[i] < offers.len()
            && all[i] == offers[at[i]].repo@ + seq!['/'] + offers[at[i]].candidate.name@ && (
        no_confirm || input_picks(answer, (at[i] + 1) as usize, Seq::empty())) by {
            if i < before.len() {
                assert(at[i] == before[i]);
                assert(all[i] == rest[i]);
                assert(prev[before[i]] == offers[before[i]]);
            }
        }
        assert forall|i: int, j: int| 0 <= i < j < at.len() implies #[trigger] at[i]
            < #[trigger] at[j] by {
            assert(at[i] == before[i]);
            if j < before.len() {
                assert(at[j] == before[j]);
            }
        }
        assert forall|k: int|
            0 <= k < offers.len() && (no_confirm || (trimmed(answer).len() > 0 && trimmed(answer)
                != seq!['q'] && trimmed(answer) != seq!['Q'] && input_picks(
                answer,
                (k + 1) as usize,
                Seq::empty(),
            ))) implies #[trigger] at.contains(k) by {
            if k < n {
                assert(before.contains(k));
                let i = choose|i: int| 0 <= i < before.len() && before[i] == k;
                assert(at[i] == k);
            } else {
                assert(at[before.len() as int] == k);
            }
        }
        at
    }
}

/// The packages that the model chose are taken by their numbers, each of them and in
/// the order of the numbers, and shown by their names in the same order.
pub proof fn law_chosen_numbers_name_their_packages(
    pkgs: Seq<AnyPkg>,
    namespace: Seq<char>,
    indices: Seq<usize>,
    i: int,
)
    requires
        on_list(indices, pkgs.len()),
        0 <= i < indices.len(),
    ensures
        targets_of(pkgs, namespace, indices).len() == indices.len(),
        names_of(pkgs, indices).len() == indices.len(),
        1 <= indices[i] <= pkgs.len(),
        targets_of(pkgs, namespace, indices)[i] == pkgs[indices[i] - 1].target_of(namespace),
        names_of(pkgs, indices)[i] == pkgs[indices[i] - 1].name_of(),
{
}

/// The line of an offer holds its number, its repository, its name and its
/// description, in this order.
pub proof fn law_an_offer_is_shown_whole(
    colors: PkgColors,
    n: nat,
    width: nat,
    repo: Seq<char>,
    offer: Offer,
)
    ensures
        offer_line_of(colors, n, width, repo, offer) == painted(colors.number, column(n, width))
            + seq![' '] + repo + seq!['/'] + painted(colors.name, offer.candidate.name@) + seq![
            ' ',
            '-',
            ' ',
        ] + offer.desc@,
{
    reveal_strlit(" ");
    reveal_strlit("/");
    reveal_strlit(" - ");
    assert(" "@ =~= seq![' ']);
    assert("/"@ =~= seq!['/']);
    assert(" - "@ =~= seq![' ', '-', ' ']);
}

} // verus!
