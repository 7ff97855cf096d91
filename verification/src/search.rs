//! Searching: what is looked for where, which of the results stay, in what order
//! they come, and which of them the user picks.

use crate::menu::{
    input_picks, is_number_menu, lemma_menu_input_by_membership, menu_input, NumberMenu,
};
use crate::packages::{
    menu_word_of, menu_words, pkg_target, AnyPkg, AurPkg, CustomPkg, RepoPkg,
};
use crate::sort::{
    arranged, is_order, key_views, law_entries_come_in_order, law_the_order_holds_every_entry,
    order_by, precedes, KeyView, SortKey,
};
use crate::text::{
    byte_len, bytes_in, contains, contains_of, lemma_text_before_total, lemma_texts_push, lines,
    lines_of, lowercased, occurs_at, strs, text_before, texts, to_lowercase, trim, trimmed,
};
use crate::web::first_n;
use flate2::read::GzDecoder;
use regex::RegexSet;
use vstd::prelude::*;

verus! {

/// Declares `regex::RegexSet`, a set of patterns that are matched together.
#[verifier::external_type_specification]
#[verifier::external_body]
pub struct ExRegexSet(regex::RegexSet);

/// Declares the error of `regex`.
#[verifier::external_type_specification]
#[verifier::external_body]
pub struct ExRegexError(regex::Error);

/// The patterns a set was made of.
pub uninterp spec fn patterns_of(set: regex::RegexSet) -> Seq<Seq<char>>;

/// Whether `RegexSet::new` accepts patterns.
pub uninterp spec fn valid_patterns(patterns: Seq<Seq<char>>) -> bool;

/// Whether `RegexSet::is_match` finds one of the patterns in a text.
pub uninterp spec fn any_match(patterns: Seq<Seq<char>>, s: Seq<char>) -> bool;

/// Makes a set of patterns by `RegexSet::new`. Which patterns it accepts is only
/// named.
#[verifier::external_body]
fn compile(patterns: &Vec<String>) -> (r: Result<RegexSet, regex::Error>)
    ensures
        match r {
            Ok(set) => valid_patterns(texts(patterns@)) && patterns_of(set) == texts(patterns@),
            Err(_) => !valid_patterns(texts(patterns@)),
        },
{
    RegexSet::new(patterns)
}

/// Looks for the patterns of a set in a text by `RegexSet::is_match`. What it
/// finds is only named.
#[verifier::external_body]
fn is_match(set: &RegexSet, s: &str) -> (r: bool)
    ensures
        r == any_match(patterns_of(*set), s@),
{
    set.is_match(s)
}

/// The text that bytes in the gzip format hold, if they are that and it is
/// UTF-8.
pub uninterp spec fn gunzipped(data: Seq<u8>) -> Option<Seq<char>>;

/// Unpacks bytes by `flate2::read::GzDecoder`, read to its end. What they hold is
/// only named.
#[verifier::external_body]
fn gunzip(data: &[u8]) -> (r: Option<String>)
    ensures
        match r {
            Some(s) => gunzipped(data@) == Some(s@),
            None => gunzipped(data@) is None,
        },
{
    std::io::read_to_string(GzDecoder::new(data)).ok()
}

/// Why a search failed.
#[derive(Debug, Clone, Copy, PartialEq, Eq, Structural)]
pub enum SearchError {
    /// A target is not a valid pattern.
    BadPattern,
    /// The list of packages could not be unpacked.
    Undecodable,
    /// Too many packages match.
    TooMany,
}

/// Whether one of several texts matches.
pub open spec fn one_matches(patterns: Seq<Seq<char>>, list: Seq<Seq<char>>) -> bool {
    exists|i: int| 0 <= i < list.len() && any_match(patterns, #[trigger] list[i])
}

/// Whether a package of a PKGBUILD repository matches: all do without a target,
/// and otherwise by its base, its name, its description, what it provides or its
/// groups.
pub open spec fn custom_matches(targets: Seq<Seq<char>>, pkg: CustomPkg) -> bool {
    ||| targets.len() == 0
    ||| any_match(targets, pkg.base@)
    ||| any_match(targets, pkg.name@)
    ||| pkg.desc is Some && any_match(targets, pkg.desc->0@)
    ||| one_matches(targets, texts(pkg.provides@))
    ||| one_matches(targets, texts(pkg.groups@))
}

fn any_text_matches(set: &RegexSet, list: &Vec<String>) -> (r: bool)
    ensures
        r == one_matches(patterns_of(*set), texts(list@)),
{
    let ghost all = texts(list@);
    let mut i: usize = 0;
    while i < list.len()
        invariant
            i <= list@.len(),
            all == texts(list@),
            forall|k: int| 0 <= k < i ==> !any_match(patterns_of(*set), #[trigger] all[k]),
        decreases list@.len() - i,
    {
        if is_match(set, list[i].as_str()) {
            assert(any_match(patterns_of(*set), all[i as int]));
            return true;
        }
        assert(all[i as int] == list@[i as int]@);
        i += 1;
    }
    false
}

/// The packages of PKGBUILD repositories that match the targets, in order, where
/// these repositories are searched at all.
pub fn search_pkgbuilds(enabled: bool, pkgs: Vec<CustomPkg>, targets: &Vec<String>) -> (r: Result<
    Vec<CustomPkg>,
    SearchError,
>)
    ensures
        match r {
            Ok(found) => if enabled {
                valid_patterns(texts(targets@)) && found@ == pkgs@.filter(
                    |p: CustomPkg| custom_matches(texts(targets@), p),
                )
            } else {
                found@.len() == 0
            },
            Err(e) => enabled && !valid_patterns(texts(targets@)) && e == SearchError::BadPattern,
        },
{
    let mut found: Vec<CustomPkg> = Vec::new();
    if !enabled {
        return Ok(found);
    }
    let set = match compile(targets) {
        Ok(set) => set,
        Err(_) => {
            return Err(SearchError::BadPattern);
        },
    };
    let ghost all = pkgs@;
    let ghost names = texts(targets@);
    let ghost keep = |p: CustomPkg| custom_matches(names, p);
    let ghost mut done: int = 0;
    let mut rest = pkgs;
    proof {
        assert(names.len() == targets@.len());
        assert(all.take(0) =~= Seq::<CustomPkg>::empty());
        assert(all.skip(0) =~= all);
        reveal(Seq::filter);
    }
    while rest.len() > 0
        invariant
            0 <= done <= all.len(),
            names == texts(targets@),
            names.len() == targets@.len(),
            patterns_of(set) == names,
            keep == (|p: CustomPkg| custom_matches(names, p)),
            rest@ == all.skip(done),
            found@ == all.take(done).filter(keep),
        decreases rest@.len(),
    {
        let ghost before = rest@;
        let pkg = rest.remove(0);
        proof {
            assert(before[0] == all[done]);
            assert(rest@ =~= all.skip(done + 1));
            assert(all.take(done + 1) =~= all.take(done).push(pkg));
            all.take(done).lemma_filter_push(pkg, keep);
            done = done + 1;
        }
        let described = match &pkg.desc {
            Some(desc) => is_match(&set, desc.as_str()),
            None => false,
        };
        if targets.len() == 0 || is_match(&set, pkg.base.as_str()) || is_match(
            &set,
            pkg.name.as_str(),
        ) || described || any_text_matches(&set, &pkg.provides) || any_text_matches(
            &set,
            &pkg.groups,
        ) {
            found.push(pkg);
        }
    }
    assert(all.take(done) =~= all);
    Ok(found)
}

/// A list cut to a limit; zero is no limit.
pub open spec fn limited<T>(list: Seq<T>, limit: usize) -> Seq<T> {
    if limit == 0 {
        list
    } else {
        first_n(list, limit as int)
    }
}

/// Cuts a list to a limit; zero is no limit.
pub fn limit_results<T>(list: &mut Vec<T>, limit: usize)
    ensures
        final(list)@ == limited(old(list)@, limit),
{
    if limit != 0 && list.len() > limit {
        list.truncate(limit);
    }
}

/// The packages the repositories have found, one repository behind the other.
pub open spec fn concatenated<T>(lists: Seq<Vec<T>>) -> Seq<T>
    decreases lists.len(),
{
    if lists.len() == 0 {
        Seq::empty()
    } else {
        concatenated(lists.drop_last()) + lists.last()@
    }
}

/// Whether the repositories are searched: where there is something to look for
/// and they are enabled.
pub fn searches(targets: &Vec<String>, enabled: bool) -> (r: bool)
    ensures
        r == (targets@.len() > 0 && enabled),
{
    targets.len() > 0 && enabled
}

/// Puts together what the repositories have found, in their order, up to a
/// limit.
pub fn search_repos<T>(found: Vec<Vec<T>>, limit: usize) -> (r: Vec<T>)
    ensures
        r@ == limited(concatenated(found@), limit),
{
    let ghost all = found@;
    let ghost mut done: int = 0;
    let mut rest = found;
    let mut out: Vec<T> = Vec::new();
    proof {
        assert(all.take(0) =~= Seq::<Vec<T>>::empty());
        assert(all.skip(0) =~= all);
    }
    while rest.len() > 0
        invariant
            0 <= done <= all.len(),
            rest@ == all.skip(done),
            out@ == concatenated(all.take(done)),
        decreases rest@.len(),
    {
        let ghost before = rest@;
        let mut list = rest.remove(0);
        proof {
            assert(before[0] == all[done]);
            assert(rest@ =~= all.skip(done + 1));
            assert(all.take(done + 1).drop_last() =~= all.take(done));
            assert(all.take(done + 1).last() == all[done]);
            done = done + 1;
        }
        out.append(&mut list);
    }
    assert(all.take(done) =~= all);
    limit_results(&mut out, limit);
    out
}

/// How one search of the AUR came out.
#[derive(Debug, Clone, Copy, PartialEq, Eq, Structural)]
pub enum Attempt {
    /// It gave a list of packages.
    Found,
    /// The AUR refused it, for having too many results for instance.
    Refused,
    /// It failed in another way.
    Failed,
}

/// The position of the target to try after one of `count` has come out.
pub open spec fn next_try(attempt: Attempt, i: usize, count: nat) -> Option<usize> {
    if attempt == Attempt::Refused && i + 1 < count {
        Some((i + 1) as usize)
    } else {
        None
    }
}

/// The targets that are still to be looked for after one has come out.
pub open spec fn left_over<T>(attempt: Attempt, i: usize, targets: Seq<T>) -> Seq<T> {
    if attempt == Attempt::Found {
        targets.remove(i as int)
    } else {
        targets
    }
}

/// Takes how the search for the target at `i` came out. The position of the
/// target to try next, if one is to be tried: another one only while the AUR
/// refuses. The target that was found need not be looked for any more.
pub fn search_target(targets: &mut Vec<String>, i: usize, attempt: Attempt) -> (r: Option<usize>)
    requires
        i < old(targets)@.len(),
    ensures
        r == next_try(attempt, i, old(targets)@.len()),
        final(targets)@ == left_over(attempt, i, old(targets)@),
        r == (if attempt == Attempt::Refused && i + 1 < old(targets)@.len() {
            Some((i + 1) as usize)
        } else {
            None
        }),
        final(targets)@ == (if attempt == Attempt::Found {
            old(targets)@.remove(i as int)
        } else {
            old(targets)@
        }),
{
    let last: usize = targets.len() - 1;
    match attempt {
        Attempt::Found => {
            targets.remove(i);
            None
        },
        Attempt::Refused => if i < last {
            Some(i + 1)
        } else {
            None
        },
        Attempt::Failed => None,
    }
}

/// The names in a list of packages that match the targets.
pub open spec fn matching(targets: Seq<Seq<char>>, list: Seq<Seq<char>>) -> Seq<Seq<char>> {
    list.filter(|s: Seq<char>| any_match(targets, s))
}

/// The names in an unpacked list of packages that match the targets, if they are
/// valid patterns and not too many match.
pub fn matching_names(list: &str, targets: &Vec<String>) -> (r: Result<Vec<String>, SearchError>)
    ensures
        match r {
            Ok(v) => valid_patterns(texts(targets@)) && texts(v@) == matching(
                texts(targets@),
                lines_of(list@),
            ) && v@.len() < 2000,
            Err(SearchError::BadPattern) => !valid_patterns(texts(targets@)),
            Err(SearchError::TooMany) => valid_patterns(texts(targets@)) && matching(
                texts(targets@),
                lines_of(list@),
            ).len() >= 2000,
            Err(SearchError::Undecodable) => false,
        },
{
    let set = match compile(targets) {
        Ok(set) => set,
        Err(_) => {
            return Err(SearchError::BadPattern);
        },
    };
    let rows = lines(list);
    let ghost all = strs(rows@);
    let ghost names = texts(targets@);
    let ghost keep = |s: Seq<char>| any_match(names, s);
    let mut found: Vec<String> = Vec::new();
    let mut i: usize = 0;
    proof {
        assert(all.take(0) =~= Seq::<Seq<char>>::empty());
        reveal(Seq::filter);
        assert(texts(found@) =~= all.take(0).filter(keep));
    }
    while i < rows.len()
        invariant
            i <= rows@.len(),
            all == strs(rows@),
            names == texts(targets@),
            patterns_of(set) == names,
            keep == (|s: Seq<char>| any_match(names, s)),
            texts(found@) == all.take(i as int).filter(keep),
        decreases rows@.len() - i,
    {
        proof {
            assert(all.take(i + 1) =~= all.take(i as int).push(rows@[i as int]@));
            all.take(i as int).lemma_filter_push(rows@[i as int]@, keep);
        }
        if is_match(&set, rows[i]) {
            let name = rows[i].to_owned();
            proof {
                lemma_texts_push(found@, name);
            }
            found.push(name);
        }
        i += 1;
    }
    assert(all.take(i as int) =~= all);
    assert(texts(found@).len() == found@.len());
    if found.len() < 2000 {
        Ok(found)
    } else {
        Err(SearchError::TooMany)
    }
}

/// The names in the AUR's packed list of packages that match the targets.
pub fn search_aur_regex(data: &[u8], targets: &Vec<String>) -> (r: Result<Vec<String>, SearchError>)
    ensures
        match gunzipped(data@) {
            None => r == Err::<Vec<String>, SearchError>(SearchError::Undecodable),
            Some(list) => match r {
                Ok(v) => valid_patterns(texts(targets@)) && texts(v@) == matching(
                    texts(targets@),
                    lines_of(list),
                ) && v@.len() < 2000,
                Err(SearchError::BadPattern) => !valid_patterns(texts(targets@)),
                Err(SearchError::TooMany) => valid_patterns(texts(targets@)) && matching(
                    texts(targets@),
                    lines_of(list),
                ).len() >= 2000,
                Err(SearchError::Undecodable) => false,
            },
        },
{
    match gunzip(data) {
        Some(list) => matching_names(list.as_str(), targets),
        None => Err(SearchError::Undecodable),
    }
}

/// The targets in lower case.
pub open spec fn lowercase_of(targets: Seq<Seq<char>>) -> Seq<Seq<char>> {
    Seq::new(targets.len(), |i: int| lowercased(targets[i]))
}

/// Puts targets in lower case, as they are matched.
pub fn lowercase_targets(targets: &Vec<String>) -> (r: Vec<String>)
    ensures
        texts(r@) == lowercase_of(texts(targets@)),
{
    let mut lower: Vec<String> = Vec::new();
    let mut i: usize = 0;
    while i < targets.len()
        invariant
            i <= targets@.len(),
            lower@.len() == i,
            forall|k: int| 0 <= k < i ==> (#[trigger] lower@[k])@ == lowercased(targets@[k]@),
        decreases targets@.len() - i,
    {
        lower.push(to_lowercase(targets[i].as_str()));
        i += 1;
    }
    assert(texts(lower@) =~= lowercase_of(texts(targets@)));
    lower
}

/// What targets are ordered by: their length in bytes.
pub open spec fn lengths(targets: Seq<Seq<char>>) -> Seq<KeyView> {
    Seq::new(targets.len(), |i: int| KeyView::Number(byte_len(targets[i]) as int))
}

/// The order in which the AUR is asked for targets: in lower case, and the
/// shortest first.
pub fn aur_targets(targets: &Vec<String>) -> (r: Vec<String>)
    ensures
        exists|order: Seq<usize>|
            is_order(order, lengths(lowercase_of(texts(targets@)))) && texts(r@)
                == #[trigger] arranged(lowercase_of(texts(targets@)), order),
{
    let ghost all = lowercase_of(texts(targets@));
    let lower = lowercase_targets(targets);
    let mut keys: Vec<SortKey> = Vec::new();
    let mut i: usize = 0;
    assert forall|k: int| 0 <= k < all.len() implies (#[trigger] lower@[k])@ == all[k] by {
        assert(texts(lower@)[k] == lower@[k]@);
    }
    while i < lower.len()
        invariant
            i <= lower@.len(),
            lower@.len() == all.len(),
            forall|k: int| 0 <= k < all.len() ==> (#[trigger] lower@[k])@ == all[k],
            keys@.len() == i,
            forall|k: int|
                0 <= k < i ==> (#[trigger] keys@[k])@ == KeyView::Number(
                    byte_len(all[k]) as int,
                ),
        decreases lower@.len() - i,
    {
        let len: usize = bytes_in(lower[i].as_str());
        keys.push(SortKey::Number(len as i128));
        i += 1;
    }
    assert(key_views(keys@) =~= lengths(all));
    let order = order_by(&keys);
    let mut out: Vec<String> = Vec::new();
    let mut n: usize = 0;
    while n < order.len()
        invariant
            n <= order@.len(),
            is_order(order@, lengths(all)),
            lower@.len() == all.len(),
            forall|k: int| 0 <= k < all.len() ==> (#[trigger] lower@[k])@ == all[k],
            out@.len() == n,
            forall|k: int| 0 <= k < n ==> (#[trigger] out@[k])@ == all[order@[k] as int],
        decreases order@.len() - n,
    {
        let k: usize = order[n];
        out.push(lower[k].clone());
        n += 1;
    }
    assert(texts(out@) =~= arranged(all, order@));
    out
}

/// Where the AUR looks for a target.
#[derive(Debug, Clone, Copy, PartialEq, Eq, Structural)]
pub enum SearchBy {
    /// In names and descriptions.
    NameDesc,
    /// In names.
    Name,
    /// Anywhere else.
    Other,
}

/// Whether a package has the remaining targets in its name, or in its name or
/// its description, in whatever case; all packages do where the AUR looks
/// elsewhere.
pub open spec fn has_targets(by: SearchBy, targets: Seq<Seq<char>>, pkg: AurPkg) -> bool {
    let name = lowercased(pkg.name@);
    match by {
        SearchBy::NameDesc => {
            let desc = match pkg.desc {
                Some(d) => lowercased(d@),
                None => Seq::empty(),
            };
            forall|i: int|
                0 <= i < targets.len() ==> contains_of(name, #[trigger] targets[i]) || contains_of(
                    desc,
                    targets[i],
                )
        },
        SearchBy::Name => forall|i: int|
            0 <= i < targets.len() ==> contains_of(name, #[trigger] targets[i]),
        SearchBy::Other => true,
    }
}

fn pkg_has_targets(by: SearchBy, targets: &Vec<String>, pkg: &AurPkg) -> (r: bool)
    ensures
        r == has_targets(by, texts(targets@), *pkg),
{
    if by == SearchBy::Other {
        return true;
    }
    let name = to_lowercase(pkg.name.as_str());
    let desc = match &pkg.desc {
        Some(d) => to_lowercase(d.as_str()),
        None => String::new(),
    };
    let ghost all = texts(targets@);
    let mut i: usize = 0;
    while i < targets.len()
        invariant
            i <= targets@.len(),
            all == texts(targets@),
            by == SearchBy::NameDesc || by == SearchBy::Name,
            name@ == lowercased(pkg.name@),
            desc@ == (match pkg.desc {
                Some(d) => lowercased(d@),
                None => Seq::empty(),
            }),
            forall|k: int|
                0 <= k < i ==> contains_of(name@, #[trigger] all[k]) || (by == SearchBy::NameDesc
                    && contains_of(desc@, all[k])),
        decreases targets@.len() - i,
    {
        let target = targets[i].as_str();
        assert(all[i as int] == target@);
        if !contains(name.as_str(), target) && !(by == SearchBy::NameDesc && contains(
            desc.as_str(),
            target,
        )) {
            return false;
        }
        i += 1;
    }
    true
}

/// Keeps the packages that have the targets the AUR was not asked for.
pub fn keep_matching(by: SearchBy, pkgs: Vec<AurPkg>, targets: &Vec<String>) -> (r: Vec<AurPkg>)
    ensures
        r@ == pkgs@.filter(|p: AurPkg| has_targets(by, texts(targets@), p)),
{
    let ghost all = pkgs@;
    let ghost names = texts(targets@);
    let ghost keep = |p: AurPkg| has_targets(by, names, p);
    let ghost mut done: int = 0;
    let mut rest = pkgs;
    let mut out: Vec<AurPkg> = Vec::new();
    proof {
        assert(all.take(0) =~= Seq::<AurPkg>::empty());
        assert(all.skip(0) =~= all);
        reveal(Seq::filter);
    }
    while rest.len() > 0
        invariant
            0 <= done <= all.len(),
            names == texts(targets@),
            keep == (|p: AurPkg| has_targets(by, names, p)),
            rest@ == all.skip(done),
            out@ == all.take(done).filter(keep),
        decreases rest@.len(),
    {
        let ghost before = rest@;
        let pkg = rest.remove(0);
        proof {
            assert(before[0] == all[done]);
            assert(rest@ =~= all.skip(done + 1));
            assert(all.take(done + 1) =~= all.take(done).push(pkg));
            all.take(done).lemma_filter_push(pkg, keep);
            done = done + 1;
        }
        if pkg_has_targets(by, targets, &pkg) {
            out.push(pkg);
        }
    }
    assert(all.take(done) =~= all);
    out
}

/// What packages of the AUR are ordered by.
#[derive(Debug, Clone, Copy, PartialEq, Eq, Structural)]
pub enum SortBy {
    Votes,
    Popularity,
    Id,
    Name,
    Base,
    Submitted,
    Modified,
    /// Left as they came.
    Unsorted,
}

/// The key of a package; the most votes and the highest popularity come first.
pub open spec fn sort_key_of(by: SortBy, pkg: AurPkg) -> KeyView {
    match by {
        SortBy::Votes => KeyView::Number(-(pkg.votes as int)),
        SortBy::Popularity => KeyView::Number(-(pkg.popularity_rank as int)),
        SortBy::Id => KeyView::Number(pkg.id as int),
        SortBy::Name => KeyView::Text(pkg.name@),
        SortBy::Base => KeyView::Text(pkg.base@),
        SortBy::Submitted => KeyView::Number(pkg.first_submitted as int),
        SortBy::Modified => KeyView::Number(pkg.last_modified as int),
        SortBy::Unsorted => KeyView::Number(0),
    }
}

/// The keys of packages.
pub open spec fn sort_keys_of(by: SortBy, pkgs: Seq<AurPkg>) -> Seq<KeyView> {
    Seq::new(pkgs.len(), |i: int| sort_key_of(by, pkgs[i]))
}

fn sort_key(by: SortBy, pkg: &AurPkg) -> (r: SortKey)
    ensures
        r@ == sort_key_of(by, *pkg),
{
    match by {
        SortBy::Votes => SortKey::Number(-(pkg.votes as i128)),
        SortBy::Popularity => SortKey::Number(-(pkg.popularity_rank as i128)),
        SortBy::Id => SortKey::Number(pkg.id as i128),
        SortBy::Name => SortKey::Text(pkg.name.clone()),
        SortBy::Base => SortKey::Text(pkg.base.clone()),
        SortBy::Submitted => SortKey::Number(pkg.first_submitted as i128),
        SortBy::Modified => SortKey::Number(pkg.last_modified as i128),
        SortBy::Unsorted => SortKey::Number(0),
    }
}

/// Orders packages; those with the same key stay as they came.
pub fn sort_results(by: SortBy, pkgs: Vec<AurPkg>) -> (r: Vec<AurPkg>)
    ensures
        exists|order: Seq<usize>|
            is_order(order, sort_keys_of(by, pkgs@)) && r@ == #[trigger] arranged(pkgs@, order),
{
    let mut keys: Vec<SortKey> = Vec::new();
    let mut i: usize = 0;
    while i < pkgs.len()
        invariant
            i <= pkgs@.len(),
            keys@.len() == i,
            forall|k: int| 0 <= k < i ==> (#[trigger] keys@[k])@ == sort_key_of(by, pkgs@[k]),
        decreases pkgs@.len() - i,
    {
        keys.push(sort_key(by, &pkgs[i]));
        i += 1;
    }
    assert(key_views(keys@) =~= sort_keys_of(by, pkgs@));
    let order = order_by(&keys);
    let mut out: Vec<AurPkg> = Vec::new();
    let mut n: usize = 0;
    while n < order.len()
        invariant
            n <= order@.len(),
            is_order(order@, sort_keys_of(by, pkgs@)),
            out@.len() == n,
            forall|k: int| 0 <= k < n ==> #[trigger] out@[k] == pkgs@[order@[k] as int],
        decreases order@.len() - n,
    {
        let k: usize = order[n];
        out.push(pkgs[k].clone());
        n += 1;
    }
    assert(out@ =~= arranged(pkgs@, order@));
    out
}

/// Packages that are not sorted stay as they came.
pub proof fn law_unsorted_results_stay(pkgs: Seq<AurPkg>, order: Seq<usize>)
    requires
        is_order(order, sort_keys_of(SortBy::Unsorted, pkgs)),
    ensures
        arranged(pkgs, order) == pkgs,
{
    let keys = sort_keys_of(SortBy::Unsorted, pkgs);
    let n = pkgs.len() as int;
    assert forall|i: int| 0 <= i < n implies order[i] == i by {
        lemma_ascending_positions(order, keys, n, i);
    }
    assert(arranged(pkgs, order) =~= pkgs);
}

proof fn lemma_ascending_positions(order: Seq<usize>, keys: Seq<KeyView>, n: int, i: int)
    requires
        is_order(order, keys),
        n == keys.len(),
        forall|k: int| 0 <= k < n ==> #[trigger] keys[k] == KeyView::Number(0),
        0 <= i < n,
    ensures
        order[i] == i,
{
    lemma_at_least(order, keys, i);
    lemma_at_most(order, keys, i);
}

proof fn lemma_at_least(order: Seq<usize>, keys: Seq<KeyView>, i: int)
    requires
        is_order(order, keys),
        forall|k: int| 0 <= k < keys.len() ==> #[trigger] keys[k] == KeyView::Number(0),
        0 <= i < keys.len(),
    ensures
        order[i] >= i,
    decreases i,
{
    if i > 0 {
        lemma_at_least(order, keys, i - 1);
        assert(precedes(keys, order[i - 1] as int, order[i] as int));
    }
}

proof fn lemma_at_most(order: Seq<usize>, keys: Seq<KeyView>, i: int)
    requires
        is_order(order, keys),
        forall|k: int| 0 <= k < keys.len() ==> #[trigger] keys[k] == KeyView::Number(0),
        0 <= i < keys.len(),
    ensures
        order[i] <= i,
    decreases keys.len() - i,
{
    if i < keys.len() - 1 {
        lemma_at_most(order, keys, i + 1);
        assert(precedes(keys, order[i] as int, order[i + 1] as int));
    }
}

/// The results of a search of the AUR: what it gave for the first target, as far
/// as the other targets are in it, in order and up to a limit.
pub open spec fn aur_results(
    by: SearchBy,
    sort: SortBy,
    limit: usize,
    targets: Seq<Seq<char>>,
    pkgs: Seq<AurPkg>,
    r: Seq<AurPkg>,
) -> bool {
    let kept = pkgs.filter(|p: AurPkg| has_targets(by, targets, p));
    exists|order: Seq<usize>|
        is_order(order, sort_keys_of(sort, kept)) && r == limited(
            #[trigger] arranged(kept, order),
            limit,
        )
}

/// Turns what the AUR gave into the results of a search.
pub fn search_aur(
    by: SearchBy,
    sort: SortBy,
    limit: usize,
    targets: &Vec<String>,
    pkgs: Vec<AurPkg>,
) -> (r: Vec<AurPkg>)
    ensures
        aur_results(by, sort, limit, texts(targets@), pkgs@, r@),
{
    let kept = keep_matching(by, pkgs, targets);
    let mut out = sort_results(sort, kept);
    limit_results(&mut out, limit);
    out
}

/// An entry of a list of results, by where it was found.
#[derive(Debug, Clone, Copy, PartialEq, Eq, Structural)]
pub enum Entry {
    Repo(usize),
    Custom(usize),
    Aur(usize),
}

/// The order in which results are shown: the repositories, the PKGBUILD
/// repositories and the AUR from the top down, and otherwise the AUR and the
/// repositories backwards around the PKGBUILD repositories.
pub open spec fn shown_order(top_down: bool, repo: nat, custom: nat, aur: nat) -> Seq<Entry> {
    let repos = Seq::new(repo, |i: int| Entry::Repo(i as usize));
    let customs = Seq::new(custom, |i: int| Entry::Custom(i as usize));
    let aurs = Seq::new(aur, |i: int| Entry::Aur(i as usize));
    if top_down {
        repos + customs + aurs
    } else {
        aurs.reverse() + customs + repos.reverse()
    }
}

/// Lists results in the order in which they are shown.
pub fn show_order(top_down: bool, repo: usize, custom: usize, aur: usize) -> (r: Vec<Entry>)
    ensures
        r@ == shown_order(top_down, repo as nat, custom as nat, aur as nat),
{
    let ghost repos = Seq::new(repo as nat, |i: int| Entry::Repo(i as usize));
    let ghost customs = Seq::new(custom as nat, |i: int| Entry::Custom(i as usize));
    let ghost aurs = Seq::new(aur as nat, |i: int| Entry::Aur(i as usize));
    let mut out: Vec<Entry> = Vec::new();
    let first: usize = if top_down {
        repo
    } else {
        aur
    };
    let last: usize = if top_down {
        aur
    } else {
        repo
    };
    let mut i: usize = 0;
    while i < first
        invariant
            i <= first,
            first == (if top_down {
                repo
            } else {
                aur
            }),
            out@ == Seq::new(
                i as nat,
                |k: int|
                    if top_down {
                        Entry::Repo(k as usize)
                    } else {
                        Entry::Aur((aur - 1 - k) as usize)
                    },
            ),
        decreases first - i,
    {
        if top_down {
            out.push(Entry::Repo(i));
        } else {
            out.push(Entry::Aur(aur - 1 - i));
        }
        i += 1;
        assert(out@ =~= Seq::new(
            i as nat,
            |k: int|
                if top_down {
                    Entry::Repo(k as usize)
                } else {
                    Entry::Aur((aur - 1 - k) as usize)
                },
        ));
    }
    let ghost head = out@;
    assert(head =~= (if top_down {
        repos
    } else {
        aurs.reverse()
    }));
    let mut j: usize = 0;
    assert(head + customs.take(0) =~= head);
    while j < custom
        invariant
            j <= custom,
            customs == Seq::new(custom as nat, |k: int| Entry::Custom(k as usize)),
            out@ == head + customs.take(j as int),
        decreases custom - j,
    {
        out.push(Entry::Custom(j));
        j += 1;
        assert(out@ =~= head + customs.take(j as int));
    }
    assert(customs.take(j as int) =~= customs);
    let ghost middle = out@;
    let ghost back = Seq::new(
        last as nat,
        |k: int|
            if top_down {
                Entry::Aur(k as usize)
            } else {
                Entry::Repo((repo - 1 - k) as usize)
            },
    );
    let mut n: usize = 0;
    assert(middle + back.take(0) =~= middle);
    while n < last
        invariant
            n <= last,
            last == (if top_down {
                aur
            } else {
                repo
            }),
            back == Seq::new(
                last as nat,
                |k: int|
                    if top_down {
                        Entry::Aur(k as usize)
                    } else {
                        Entry::Repo((repo - 1 - k) as usize)
                    },
            ),
            out@ == middle + back.take(n as int),
        decreases last - n,
    {
        if top_down {
            out.push(Entry::Aur(n));
        } else {
            out.push(Entry::Repo(repo - 1 - n));
        }
        n += 1;
        assert(out@ =~= middle + back.take(n as int));
    }
    proof {
        assert(back.take(n as int) =~= back);
        assert(back =~= (if top_down {
            aurs
        } else {
            repos.reverse()
        }));
    }
    out
}

/// The exit code of a search: one if neither the repositories nor the AUR have
/// anything.
pub fn exit_code(repo: usize, aur: usize) -> (r: i32)
    ensures
        r == (if repo == 0 && aur == 0 {
            1int
        } else {
            0
        }),
{
    if repo == 0 && aur == 0 {
        1
    } else {
        0
    }
}

/// The packages of all searches: the repositories, the PKGBUILD repositories and
/// the AUR.
pub open spec fn gathered(repo: Seq<RepoPkg>, custom: Seq<CustomPkg>, aur: Seq<AurPkg>) -> Seq<
    AnyPkg,
> {
    repo.map_values(|p: RepoPkg| AnyPkg::RepoPkg(p)) + custom.map_values(
        |p: CustomPkg| AnyPkg::Custom(p),
    ) + aur.map_values(|p: AurPkg| AnyPkg::AurPkg(p))
}

/// Gathers the packages of all searches into one list.
pub fn gather(repo: Vec<RepoPkg>, custom: Vec<CustomPkg>, aur: Vec<AurPkg>) -> (r: Vec<AnyPkg>)
    ensures
        r@ == gathered(repo@, custom@, aur@),
{
    let ghost all = gathered(repo@, custom@, aur@);
    let ghost n = repo@.len() as int;
    let ghost m = n + custom@.len();
    let mut out: Vec<AnyPkg> = Vec::new();
    let mut first = repo;
    while first.len() > 0
        invariant
            out@.len() + first@.len() == n,
            n <= m <= all.len(),
            forall|k: int| 0 <= k < out@.len() ==> #[trigger] out@[k] == all[k],
            forall|k: int|
                0 <= k < first@.len() ==> AnyPkg::RepoPkg(#[trigger] first@[k]) == all[out@.len()
                    + k],
        decreases first@.len(),
    {
        let ghost queue = first@;
        let ghost done = out@.len() as int;
        let pkg = first.remove(0);
        assert(AnyPkg::RepoPkg(queue[0]) == all[done]);
        out.push(AnyPkg::RepoPkg(pkg));
        assert forall|k: int| 0 <= k < first@.len() implies AnyPkg::RepoPkg(#[trigger] first@[k])
            == all[out@.len() + k] by {
            assert(first@[k] == queue[k + 1]);
        }
    }
    let mut second = custom;
    while second.len() > 0
        invariant
            out@.len() + second@.len() == m,
            m <= all.len(),
            forall|k: int| 0 <= k < out@.len() ==> #[trigger] out@[k] == all[k],
            forall|k: int|
                0 <= k < second@.len() ==> AnyPkg::Custom(#[trigger] second@[k]) == all[out@.len()
                    + k],
        decreases second@.len(),
    {
        let ghost queue = second@;
        let ghost done = out@.len() as int;
        let pkg = second.remove(0);
        assert(AnyPkg::Custom(queue[0]) == all[done]);
        out.push(AnyPkg::Custom(pkg));
        assert forall|k: int| 0 <= k < second@.len() implies AnyPkg::Custom(#[trigger] second@[k])
            == all[out@.len() + k] by {
            assert(second@[k] == queue[k + 1]);
        }
    }
    let mut third = aur;
    while third.len() > 0
        invariant
            out@.len() + third@.len() == all.len(),
            forall|k: int| 0 <= k < out@.len() ==> #[trigger] out@[k] == all[k],
            forall|k: int|
                0 <= k < third@.len() ==> AnyPkg::AurPkg(#[trigger] third@[k]) == all[out@.len()
                    + k],
        decreases third@.len(),
    {
        let ghost queue = third@;
        let ghost done = out@.len() as int;
        let pkg = third.remove(0);
        assert(AnyPkg::AurPkg(queue[0]) == all[done]);
        out.push(AnyPkg::AurPkg(pkg));
        assert forall|k: int| 0 <= k < third@.len() implies AnyPkg::AurPkg(#[trigger] third@[k])
            == all[out@.len() + k] by {
            assert(third@[k] == queue[k + 1]);
        }
    }
    assert(out@ =~= all);
    out
}

/// Whether to say that there is nothing to do: something was on offer, and
/// nothing of it was selected.
pub fn nothing_to_do(offered: usize, targets: &Vec<String>) -> (r: bool)
    ensures
        r == (targets@.len() == 0 && offered > 0),
{
    targets.len() == 0 && offered > 0
}

/// The targets of the packages a typed selection picks, from the top down.
pub open spec fn picked_targets(input: Seq<char>, namespace: Seq<char>, pkgs: Seq<AnyPkg>) -> Seq<
    Seq<char>,
>
    decreases pkgs.len(),
{
    if pkgs.len() == 0 {
        Seq::empty()
    } else {
        let rest = picked_targets(input, namespace, pkgs.drop_last());
        if input_picks(input, pkgs.len() as usize, ""@) {
            rest.push(pkgs.last().target_of(namespace))
        } else {
            rest
        }
    }
}

/// The targets a typed selection picks, in the order the packages were shown.
pub open spec fn selected_targets(
    input: Seq<char>,
    namespace: Seq<char>,
    pkgs: Seq<AnyPkg>,
    top_down: bool,
) -> Seq<Seq<char>> {
    if top_down {
        picked_targets(input, namespace, pkgs)
    } else {
        picked_targets(input, namespace, pkgs).reverse()
    }
}

/// What the answer at the number menu leads to.
#[derive(Debug)]
pub enum MenuStep {
    /// Nothing was selected.
    Nothing,
    /// The ai is to select.
    Ask(String),
    /// These targets were selected.
    Targets(Vec<String>),
}

/// Whether words are those the number menu could match.
pub open spec fn lists_words(listed: Seq<Seq<char>>, pkgs: Seq<AnyPkg>, namespace: Seq<char>) -> bool {
    forall|w: Seq<char>| #[trigger] listed.contains(w) <==> menu_word_of(pkgs, namespace, w)
}

/// Whether an input is a selection from a list of packages.
pub open spec fn selects_from(input: Seq<char>, pkgs: Seq<AnyPkg>, namespace: Seq<char>) -> bool {
    exists|listed: Seq<Seq<char>>|
        lists_words(listed, pkgs, namespace) && #[trigger] menu_input(input, listed)
}

/// Takes the answer at the number menu. Anything the number menu understands is
/// handled by the number menu; only genuinely non numeric input is handed to the
/// ai.
pub fn menu_step(
    ai: bool,
    input: &str,
    namespace: &str,
    pkgs: &Vec<AnyPkg>,
    top_down: bool,
) -> (r: MenuStep)
    ensures
        match r {
            MenuStep::Nothing => trimmed(input@).len() == 0,
            MenuStep::Ask(query) => trimmed(input@).len() > 0 && ai && !selects_from(
                input@,
                pkgs@,
                namespace@,
            ) && query@ == trimmed(input@),
            MenuStep::Targets(list) => trimmed(input@).len() > 0 && (!ai || selects_from(
                input@,
                pkgs@,
                namespace@,
            )) && texts(list@) == selected_targets(input@, namespace@, pkgs@, top_down),
        },
{
    let query = trim(input);
    if query.is_empty() {
        return MenuStep::Nothing;
    }
    if ai {
        let listed = menu_words(namespace, pkgs);
        let selection = is_number_menu(input, listed.as_slice());
        proof {
            assert(lists_words(strs(listed@), pkgs@, namespace@));
            if selects_from(input@, pkgs@, namespace@) {
                let other = choose|other: Seq<Seq<char>>|
                    lists_words(other, pkgs@, namespace@) && #[trigger] menu_input(input@, other);
                lemma_menu_input_by_membership(input@, strs(listed@), other);
            }
        }
        if !selection {
            return MenuStep::Ask(query.to_owned());
        }
    }
    let menu = NumberMenu::new(input);
    let mut out: Vec<String> = Vec::new();
    let count: usize = pkgs.len();
    let mut i: usize = 0;
    proof {
        assert(pkgs@.take(0) =~= Seq::<AnyPkg>::empty());
        assert(texts(out@) =~= Seq::<Seq<char>>::empty());
    }
    while i < count
        invariant
            i <= count == pkgs@.len(),
            forall|n: usize, word: Seq<char>| #[trigger]
                menu.picks(n, word) == input_picks(input@, n, word),
            texts(out@) == picked_targets(input@, namespace@, pkgs@.take(i as int)),
        decreases count - i,
    {
        proof {
            assert(pkgs@.take(i + 1).drop_last() =~= pkgs@.take(i as int));
            assert(pkgs@.take(i + 1).last() == pkgs@[i as int]);
        }
        if menu.contains(i + 1, "") {
            let target = pkg_target(namespace, &pkgs[i]);
            proof {
                lemma_texts_push(out@, target);
            }
            out.push(target);
        }
        i += 1;
    }
    assert(pkgs@.take(i as int) =~= pkgs@);
    if top_down {
        MenuStep::Targets(out)
    } else {
        MenuStep::Targets(reversed(out))
    }
}

fn reversed(list: Vec<String>) -> (r: Vec<String>)
    ensures
        texts(r@) == texts(list@).reverse(),
{
    let ghost all = texts(list@);
    let mut rest = list;
    let mut out: Vec<String> = Vec::new();
    assert(texts(out@) =~= Seq::<Seq<char>>::empty());
    while rest.len() > 0
        invariant
            rest@.len() + out@.len() == all.len(),
            forall|k: int| 0 <= k < rest@.len() ==> (#[trigger] rest@[k])@ == all[k],
            forall|k: int| 0 <= k < out@.len() ==> (#[trigger] out@[k])@ == all[all.len() - 1 - k],
        decreases rest@.len(),
    {
        if let Some(s) = rest.pop() {
            out.push(s);
        }
    }
    assert(texts(out@) =~= all.reverse());
    out
}

/// A selection picks nothing but packages on the list.
pub proof fn law_only_listed_packages_are_picked(
    input: Seq<char>,
    namespace: Seq<char>,
    pkgs: Seq<AnyPkg>,
    target: Seq<char>,
)
    requires
        picked_targets(input, namespace, pkgs).contains(target),
    ensures
        exists|k: int|
            0 <= k < pkgs.len() && (#[trigger] pkgs[k]).target_of(namespace) == target
                && input_picks(input, (k + 1) as usize, ""@),
    decreases pkgs.len(),
{
    if pkgs.len() > 0 {
        let prev = pkgs.drop_last();
        let rest = picked_targets(input, namespace, prev);
        let list = picked_targets(input, namespace, pkgs);
        let i = choose|i: int| 0 <= i < list.len() && list[i] == target;
        if i < rest.len() {
            assert(rest[i] == target);
            law_only_listed_packages_are_picked(input, namespace, prev, target);
            let k = choose|k: int|
                0 <= k < prev.len() && (#[trigger] prev[k]).target_of(namespace) == target
                    && input_picks(input, (k + 1) as usize, ""@);
            assert(pkgs[k] == prev[k]);
        } else {
            assert(pkgs[pkgs.len() - 1].target_of(namespace) == target);
        }
    }
}

/// Every result is shown, in either direction.
pub proof fn law_every_result_is_shown(
    top_down: bool,
    repo: usize,
    custom: usize,
    aur: usize,
    i: usize,
)
    ensures
        shown_order(top_down, repo as nat, custom as nat, aur as nat).len() == repo + custom + aur,
        i < repo ==> shown_order(top_down, repo as nat, custom as nat, aur as nat).contains(
            Entry::Repo(i),
        ),
        i < custom ==> shown_order(top_down, repo as nat, custom as nat, aur as nat).contains(
            Entry::Custom(i),
        ),
        i < aur ==> shown_order(top_down, repo as nat, custom as nat, aur as nat).contains(
            Entry::Aur(i),
        ),
{
    let s = shown_order(top_down, repo as nat, custom as nat, aur as nat);
    if top_down {
        if i < repo {
            assert(s[i as int] == Entry::Repo(i));
        }
        if i < custom {
            assert(s[repo + i] == Entry::Custom(i));
        }
        if i < aur {
            assert(s[repo + custom + i] == Entry::Aur(i));
        }
    } else {
        if i < aur {
            assert(s[aur - 1 - i] == Entry::Aur(i));
        }
        if i < custom {
            assert(s[aur + i] == Entry::Custom(i));
        }
        if i < repo {
            assert(s[aur + custom + (repo - 1 - i)] == Entry::Repo(i));
        }
    }
}

/// Each single target has to be found, and each may be found elsewhere: a package
/// has two lists of targets exactly when it has both of them, and it has one target
/// when that is in its name or, where descriptions are looked at, in its
/// description. Where the AUR looks elsewhere nothing is asked of a package.
pub proof fn law_each_target_is_looked_for_alone(
    by: SearchBy,
    a: Seq<Seq<char>>,
    b: Seq<Seq<char>>,
    target: Seq<char>,
    pkg: AurPkg,
)
    ensures
        has_targets(by, a + b, pkg) == (has_targets(by, a, pkg) && has_targets(by, b, pkg)),
        has_targets(by, Seq::empty(), pkg),
        has_targets(SearchBy::Other, a, pkg),
        has_targets(SearchBy::Name, seq![target], pkg) == contains_of(
            lowercased(pkg.name@),
            target,
        ),
        pkg.desc is Some ==> has_targets(SearchBy::NameDesc, seq![target], pkg) == (contains_of(
            lowercased(pkg.name@),
            target,
        ) || contains_of(lowercased(pkg.desc->0@), target)),
        pkg.desc is None && target.len() > 0 ==> has_targets(
            SearchBy::NameDesc,
            seq![target],
            pkg,
        ) == contains_of(lowercased(pkg.name@), target),
{
    let both = a + b;
    let name = lowercased(pkg.name@);
    let desc = match pkg.desc {
        Some(d) => lowercased(d@),
        None => Seq::empty(),
    };
    let one = seq![target];
    assert(one[0] == target);
    assert forall|i: int| 0 <= i < a.len() implies both[i] == #[trigger] a[i] by {
    }
    assert forall|i: int| 0 <= i < b.len() implies both[a.len() + i] == #[trigger] b[i] by {
    }
    assert forall|i: int| 0 <= i < both.len() implies #[trigger] both[i] == (if i < a.len() {
        a[i]
    } else {
        b[i - a.len()]
    }) by {
    }
    if has_targets(by, both, pkg) && by != SearchBy::Other {
        assert forall|i: int| 0 <= i < a.len() implies contains_of(name, #[trigger] a[i]) || (by
            == SearchBy::NameDesc && contains_of(desc, a[i])) by {
            assert(both[i] == a[i]);
        }
        assert forall|i: int| 0 <= i < b.len() implies contains_of(name, #[trigger] b[i]) || (by
            == SearchBy::NameDesc && contains_of(desc, b[i])) by {
            assert(both[a.len() + i] == b[i]);
        }
    }
    if pkg.desc is None && target.len() > 0 {
        assert forall|i: int| !occurs_at(desc, target, i) by {
        }
    }
}

/// The packages that a search keeps are all those that have the targets, and the
/// results are ordered by what was asked for: the most votes and the highest
/// popularity first, and the lowest number, the first name and the earliest date
/// first. Without a limit all of them are there; a limit cuts off the last ones
/// and no others.
pub proof fn law_results_are_filtered_sorted_and_limited(
    by: SearchBy,
    sort: SortBy,
    limit: usize,
    targets: Seq<Seq<char>>,
    pkgs: Seq<AurPkg>,
    r: Seq<AurPkg>,
)
    requires
        aur_results(by, sort, limit, targets, pkgs, r),
    ensures
        forall|i: int|
            0 <= i < r.len() ==> pkgs.contains(#[trigger] r[i]) && has_targets(by, targets, r[i]),
        forall|k: int|
            0 <= k < pkgs.len() && has_targets(by, targets, #[trigger] pkgs[k]) && (limit == 0
                || r.len() < limit) ==> r.contains(pkgs[k]),
        limit > 0 ==> r.len() <= limit,
        forall|i: int, j: int|
            0 <= i < j < r.len() ==> match sort {
                SortBy::Votes => (#[trigger] r[i]).votes >= (#[trigger] r[j]).votes,
                SortBy::Popularity => r[i].popularity_rank >= r[j].popularity_rank,
                SortBy::Id => r[i].id <= r[j].id,
                SortBy::Name => !text_before(r[j].name@, r[i].name@),
                SortBy::Base => !text_before(r[j].base@, r[i].base@),
                SortBy::Submitted => r[i].first_submitted <= r[j].first_submitted,
                SortBy::Modified => r[i].last_modified <= r[j].last_modified,
                SortBy::Unsorted => true,
            },
        forall|i: int, k: int|
            0 <= i < r.len() && 0 <= k < pkgs.len() && has_targets(by, targets, pkgs[k])
                && !r.contains(pkgs[k]) ==> match sort {
                SortBy::Votes => (#[trigger] r[i]).votes >= (#[trigger] pkgs[k]).votes,
                SortBy::Popularity => r[i].popularity_rank >= pkgs[k].popularity_rank,
                SortBy::Id => r[i].id <= pkgs[k].id,
                SortBy::Name => !text_before(pkgs[k].name@, r[i].name@),
                SortBy::Base => !text_before(pkgs[k].base@, r[i].base@),
                SortBy::Submitted => r[i].first_submitted <= pkgs[k].first_submitted,
                SortBy::Modified => r[i].last_modified <= pkgs[k].last_modified,
                SortBy::Unsorted => true,
            },
        sort == SortBy::Unsorted && limit == 0 ==> r == pkgs.filter(
            |p: AurPkg| has_targets(by, targets, p),
        ),
{
    let keep = |p: AurPkg| has_targets(by, targets, p);
    let kept = pkgs.filter(keep);
    let keys = sort_keys_of(sort, kept);
    let order = choose|order: Seq<usize>|
        is_order(order, keys) && r == limited(#[trigger] arranged(kept, order), limit);
    let all = arranged(kept, order);
    assert forall|i: int| 0 <= i < r.len() implies #[trigger] r[i] == all[i] by {
    }
    assert forall|i: int| 0 <= i < r.len() implies pkgs.contains(#[trigger] r[i]) && has_targets(
        by,
        targets,
        r[i],
    ) by {
        let x = order[i] as int;
        assert(r[i] == kept[x]);
        pkgs.lemma_filter_pred(keep, x);
        assert(kept.contains(kept[x]));
        pkgs.lemma_filter_contains_rev(keep, kept[x]);
    }
    assert forall|i: int, j: int| 0 <= i < j < all.len() implies match sort {
        SortBy::Votes => (#[trigger] all[i]).votes >= (#[trigger] all[j]).votes,
        SortBy::Popularity => all[i].popularity_rank >= all[j].popularity_rank,
        SortBy::Id => all[i].id <= all[j].id,
        SortBy::Name => !text_before(all[j].name@, all[i].name@),
        SortBy::Base => !text_before(all[j].base@, all[i].base@),
        SortBy::Submitted => all[i].first_submitted <= all[j].first_submitted,
        SortBy::Modified => all[i].last_modified <= all[j].last_modified,
        SortBy::Unsorted => true,
    } by {
        law_entries_come_in_order(order, keys, i, j);
        let x = order[i] as int;
        let y = order[j] as int;
        assert(keys[x] == sort_key_of(sort, kept[x]));
        assert(keys[y] == sort_key_of(sort, kept[y]));
        lemma_text_before_total(kept[x].name@, kept[y].name@);
        lemma_text_before_total(kept[x].base@, kept[y].base@);
    }
    assert forall|k: int|
        0 <= k < pkgs.len() && has_targets(by, targets, #[trigger] pkgs[k]) implies exists|m: int|
        0 <= m < all.len() && #[trigger] all[m] == pkgs[k] by {
        assert(keep(pkgs[k]));
        pkgs.lemma_filter_contains(keep, k);
        let x = choose|x: int| 0 <= x < kept.len() && kept[x] == pkgs[k];
        law_the_order_holds_every_entry(order, keys, x);
        let m = choose|m: int| 0 <= m < order.len() && (#[trigger] order[m]) == x;
        assert(all[m] == pkgs[k]);
    }
    assert forall|k: int|
        0 <= k < pkgs.len() && has_targets(by, targets, #[trigger] pkgs[k]) && (limit == 0
            || r.len() < limit) implies r.contains(pkgs[k]) by {
        let m = choose|m: int| 0 <= m < all.len() && #[trigger] all[m] == pkgs[k];
        assert(r =~= all);
        assert(r[m] == pkgs[k]);
    }
    assert forall|i: int, k: int|
        0 <= i < r.len() && 0 <= k < pkgs.len() && has_targets(by, targets, pkgs[k])
            && !r.contains(pkgs[k]) implies match sort {
        SortBy::Votes => (#[trigger] r[i]).votes >= (#[trigger] pkgs[k]).votes,
        SortBy::Popularity => r[i].popularity_rank >= pkgs[k].popularity_rank,
        SortBy::Id => r[i].id <= pkgs[k].id,
        SortBy::Name => !text_before(pkgs[k].name@, r[i].name@),
        SortBy::Base => !text_before(pkgs[k].base@, r[i].base@),
        SortBy::Submitted => r[i].first_submitted <= pkgs[k].first_submitted,
        SortBy::Modified => r[i].last_modified <= pkgs[k].last_modified,
        SortBy::Unsorted => true,
    } by {
        let m = choose|m: int| 0 <= m < all.len() && #[trigger] all[m] == pkgs[k];
        if m < r.len() {
            assert(r[m] == pkgs[k]);
        }
        assert(all[i] == r[i]);
    }
    if sort == SortBy::Unsorted && limit == 0 {
        law_unsorted_results_stay(kept, order);
    }
}

/// The AUR is asked for every target, in lower case, and for the shorter of two
/// first.
pub proof fn law_shorter_targets_are_asked_first(targets: Seq<Seq<char>>, order: Seq<usize>)
    requires
        is_order(order, lengths(lowercase_of(targets))),
    ensures
        ({
            let asked = arranged(lowercase_of(targets), order);
            &&& asked.len() == targets.len()
            &&& forall|k: int|
                0 <= k < targets.len() ==> asked.contains(lowercased(#[trigger] targets[k]))
            &&& forall|i: int, j: int|
                0 <= i < j < asked.len() ==> byte_len(#[trigger] asked[i]) <= byte_len(
                    #[trigger] asked[j],
                )
        }),
{
    let lower = lowercase_of(targets);
    let keys = lengths(lower);
    let asked = arranged(lower, order);
    assert forall|k: int| 0 <= k < targets.len() implies asked.contains(
        lowercased(#[trigger] targets[k]),
    ) by {
        law_the_order_holds_every_entry(order, keys, k);
        let m = choose|m: int| 0 <= m < order.len() && (#[trigger] order[m]) == k;
        assert(asked[m] == lowercased(targets[k]));
    }
    assert forall|i: int, j: int| 0 <= i < j < asked.len() implies byte_len(#[trigger] asked[i])
        <= byte_len(#[trigger] asked[j]) by {
        law_entries_come_in_order(order, keys, i, j);
    }
}

/// A package of a PKGBUILD repository is found by any single one of its texts: its
/// base, its name, its description, anything it provides, or any of its groups;
/// and by nothing else, once there is a target.
pub proof fn law_any_text_of_a_package_can_match(targets: Seq<Seq<char>>, pkg: CustomPkg)
    ensures
        targets.len() == 0 ==> custom_matches(targets, pkg),
        any_match(targets, pkg.base@) ==> custom_matches(targets, pkg),
        any_match(targets, pkg.name@) ==> custom_matches(targets, pkg),
        pkg.desc is Some && any_match(targets, pkg.desc->0@) ==> custom_matches(targets, pkg),
        forall|i: int|
            0 <= i < pkg.provides@.len() && any_match(targets, (#[trigger] pkg.provides@[i])@)
                ==> custom_matches(targets, pkg),
        forall|i: int|
            0 <= i < pkg.groups@.len() && any_match(targets, (#[trigger] pkg.groups@[i])@)
                ==> custom_matches(targets, pkg),
        targets.len() > 0 && !any_match(targets, pkg.base@) && !any_match(targets, pkg.name@) && (
        pkg.desc is Some ==> !any_match(targets, pkg.desc->0@)) && (forall|i: int|
            0 <= i < pkg.provides@.len() ==> !any_match(targets, (#[trigger] pkg.provides@[i])@))
            && (forall|i: int|
            0 <= i < pkg.groups@.len() ==> !any_match(targets, (#[trigger] pkg.groups@[i])@))
            ==> !custom_matches(targets, pkg),
{
    let provides = texts(pkg.provides@);
    let groups = texts(pkg.groups@);
    assert forall|i: int|
        0 <= i < pkg.provides@.len() && any_match(
            targets,
            (#[trigger] pkg.provides@[i])@,
        ) implies custom_matches(targets, pkg) by {
        assert(any_match(targets, provides[i]));
    }
    assert forall|i: int|
        0 <= i < pkg.groups@.len() && any_match(
            targets,
            (#[trigger] pkg.groups@[i])@,
        ) implies custom_matches(targets, pkg) by {
        assert(any_match(targets, groups[i]));
    }
    assert forall|i: int| 0 <= i < provides.len() implies #[trigger] provides[i]
        == pkg.provides@[i]@ by {
    }
    assert forall|i: int| 0 <= i < groups.len() implies #[trigger] groups[i] == pkg.groups@[i]@ by {
    }
}

/// The finds of the repositories follow one another, none of them left out: those
/// of two groups of repositories are those of the first and then those of the
/// second.
pub proof fn law_finds_follow_one_another<T>(a: Seq<Vec<T>>, b: Seq<Vec<T>>, one: Vec<T>)
    ensures
        concatenated(a + b) == concatenated(a) + concatenated(b),
        concatenated(seq![one]) == one@,
    decreases b.len(),
{
    let single = seq![one];
    assert(single.drop_last() =~= Seq::<Vec<T>>::empty());
    assert(concatenated(single.drop_last()) =~= Seq::<T>::empty());
    assert(concatenated(single) =~= one@);
    if b.len() == 0 {
        assert(a + b =~= a);
        assert(concatenated(a) + concatenated(b) =~= concatenated(a));
    } else {
        law_finds_follow_one_another(a, b.drop_last(), one);
        assert((a + b).drop_last() =~= a + b.drop_last());
        assert((a + b).last() == b.last());
        assert(concatenated(a) + (concatenated(b.drop_last()) + b.last()@) =~= concatenated(a)
            + concatenated(b.drop_last()) + b.last()@);
    }
}

/// A limit keeps the first entries of a list, as many as it says, and zero keeps
/// all of them.
pub proof fn law_a_limit_keeps_the_first<T>(list: Seq<T>, limit: usize)
    ensures
        limited(list, 0) == list,
        list.len() <= limit ==> limited(list, limit) == list,
        0 < limit <= list.len() ==> limited(list, limit).len() == limit,
        forall|i: int|
            0 <= i < limited(list, limit).len() ==> #[trigger] limited(list, limit)[i] == list[i],
{
    assert(list.len() <= limit ==> limited(list, limit) =~= list);
}

/// From the top down the results come as they were found, the repositories first
/// and the AUR last; from the bottom up the AUR comes first and the repositories
/// last, each of the two backwards.
pub proof fn law_results_are_shown_in_order(repo: usize, custom: usize, aur: usize, i: usize)
    ensures
        ({
            let down = shown_order(true, repo as nat, custom as nat, aur as nat);
            let up = shown_order(false, repo as nat, custom as nat, aur as nat);
            &&& down.len() == repo + custom + aur
            &&& up.len() == repo + custom + aur
            &&& i < repo ==> down[i as int] == Entry::Repo(i) && up[up.len() - 1 - i]
                == Entry::Repo(i)
            &&& i < custom ==> down[repo + i] == Entry::Custom(i) && up[aur + i] == Entry::Custom(
                i,
            )
            &&& i < aur ==> down[repo + custom + i] == Entry::Aur(i) && up[aur - 1 - i]
                == Entry::Aur(i)
        }),
{
    law_every_result_is_shown(true, repo, custom, aur, i);
    law_every_result_is_shown(false, repo, custom, aur, i);
}

/// The results of all searches are gathered, each list in its own order: first the
/// repositories, then the PKGBUILD repositories, and the AUR last.
pub proof fn law_all_results_are_gathered(
    repo: Seq<RepoPkg>,
    custom: Seq<CustomPkg>,
    aur: Seq<AurPkg>,
    i: int,
)
    requires
        0 <= i,
    ensures
        gathered(repo, custom, aur).len() == repo.len() + custom.len() + aur.len(),
        i < repo.len() ==> gathered(repo, custom, aur)[i] == AnyPkg::RepoPkg(repo[i]),
        i < custom.len() ==> gathered(repo, custom, aur)[repo.len() + i] == AnyPkg::Custom(
            custom[i],
        ),
        i < aur.len() ==> gathered(repo, custom, aur)[repo.len() + custom.len() + i]
            == AnyPkg::AurPkg(aur[i]),
{
}

/// Every package whose number is picked is taken, each once, and in the order of
/// the list: `at` are the positions of those packages, and nothing else is taken.
/// From the bottom up the order is the opposite one.
pub proof fn law_every_picked_package_is_taken(
    input: Seq<char>,
    namespace: Seq<char>,
    pkgs: Seq<AnyPkg>,
) -> (at: Seq<int>)
    requires
        pkgs.len() <= usize::MAX,
    ensures
        ({
            let down = selected_targets(input, namespace, pkgs, true);
            let up = selected_targets(input, namespace, pkgs, false);
            &&& down.len() == at.len()
            &&& up.len() == at.len()
            &&& forall|i: int|
                0 <= i < at.len() ==> 0 <= #[trigger] at[i] < pkgs.len() && input_picks(
                    input,
                    (at[i] + 1) as usize,
                    Seq::empty(),
                ) && down[i] == pkgs[at[i]].target_of(namespace) && up[at.len() - 1 - i] == down[i]
            &&& forall|i: int, j: int|
                0 <= i < j < at.len() ==> #[trigger] at[i] < #[trigger] at[j]
            &&& forall|k: int|
                0 <= k < pkgs.len() && input_picks(input, (k + 1) as usize, Seq::empty())
                    ==> #[trigger] at.contains(k)
        }),
    decreases pkgs.len(),
{
    reveal_strlit("");
    assert(""@ =~= Seq::<char>::empty());
    let down = picked_targets(input, namespace, pkgs);
    if pkgs.len() == 0 {
        Seq::empty()
    } else {
        let before = law_every_picked_package_is_taken(input, namespace, pkgs.drop_last());
        let rest = selected_targets(input, namespace, pkgs.drop_last(), true);
        let n = pkgs.len() - 1;
        let picked = input_picks(input, pkgs.len() as usize, Seq::empty());
        let at = if picked {
            before.push(n)
        } else {
            before
        };
        assert(down == if picked {
            rest.push(pkgs.last().target_of(namespace))
        } else {
            rest
        });
        let up = selected_targets(input, namespace, pkgs, false);
        assert forall|i: int| 0 <= i < at.len() implies 0 <= #[trigger] at[i] < pkgs.len()
            && input_picks(input, (at[i] + 1) as usize, Seq::empty()) && down[i]
            == pkgs[at[i]].target_of(namespace) && up[at.len() - 1 - i] == down[i] by {
            if i < before.len() {
                assert(at[i] == before[i]);
                assert(pkgs.drop_last()[before[i]] == pkgs[before[i]]);
            }
        }
        assert forall|i: int, j: int| 0 <= i < j < at.len() implies #[trigger] at[i]
            < #[trigger] at[j] by {
            assert(at[i] == before[i]);
            if j < before.len() {
                assert(at[j] == before[j]);
            }
        }
        assert forall|k: int|
            0 <= k < pkgs.len() && input_picks(
                input,
                (k + 1) as usize,
                Seq::empty(),
            ) implies #[trigger] at.contains(k) by {
            if k < n {
                assert(before.contains(k));
                let i = choose|i: int| 0 <= i < before.len() && before[i] == k;
                assert(at[i] == k);
            } else {
                assert(at[before.len() as int] == k);
            }
        }
        at
    }
}

/// The names that match are all those of the list that do, in order.
pub proof fn law_every_matching_name_is_found(
    targets: Seq<Seq<char>>,
    list: Seq<Seq<char>>,
    name: Seq<char>,
)
    ensures
        matching(targets, list.push(name)) == (if any_match(targets, name) {
            matching(targets, list).push(name)
        } else {
            matching(targets, list)
        }),
        matching(targets, Seq::empty()).len() == 0,
{
    let keep = |s: Seq<char>| any_match(targets, s);
    list.lemma_filter_push(name, keep);
    reveal(Seq::filter);
}

/// An input is a selection from a list exactly when it is one among the names and the
/// repositories of its packages.
pub proof fn law_a_selection_is_read_against_the_list(
    input: Seq<char>,
    pkgs: Seq<AnyPkg>,
    namespace: Seq<char>,
    listed: Seq<Seq<char>>,
)
    requires
        forall|w: Seq<char>| #[trigger]
            listed.contains(w) <==> exists|k: int|
                0 <= k < pkgs.len() && ((#[trigger] pkgs[k]).name_of() == w || pkgs[k].repo_of(
                    namespace,
                ) == w),
    ensures
        selects_from(input, pkgs, namespace) == menu_input(input, listed),
{
    assert forall|w: Seq<char>| #[trigger] listed.contains(w) <==> menu_word_of(
        pkgs,
        namespace,
        w,
    ) by {
    }
    assert(lists_words(listed, pkgs, namespace));
    if selects_from(input, pkgs, namespace) {
        let other = choose|other: Seq<Seq<char>>|
            lists_words(other, pkgs, namespace) && #[trigger] menu_input(input, other);
        lemma_menu_input_by_membership(input, listed, other);
    }
}

/// The targets are tried in order, one after the other, for as long as the AUR
/// refuses: whatever the number of refusals, the next one is the one behind the last,
/// and the search ends behind the last target. A target that was found leaves all
/// others to be looked for, in order.
pub proof fn law_targets_are_tried_in_order(targets: Seq<Seq<char>>, i: int)
    requires
        0 <= i < targets.len() <= usize::MAX,
    ensures
        i + 1 < targets.len() ==> next_try(Attempt::Refused, i as usize, targets.len()) == Some(
            (i + 1) as usize,
        ),
        i + 1 == targets.len() ==> next_try(Attempt::Refused, i as usize, targets.len()) is None,
        next_try(Attempt::Found, i as usize, targets.len()) is None,
        next_try(Attempt::Failed, i as usize, targets.len()) is None,
        left_over(Attempt::Found, i as usize, targets) == targets.take(i) + targets.skip(i + 1),
        left_over(Attempt::Refused, i as usize, targets) == targets,
        left_over(Attempt::Failed, i as usize, targets) == targets,
{
    assert(targets.remove(i) =~= targets.take(i) + targets.skip(i + 1));
}

} // verus!
