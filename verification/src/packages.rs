//! Packages as the searches list them: what they are called, how they are
//! marked, and what is written about them.

use crate::style::{paint, painted, TextStyle};
use crate::text::{
    ascending, blanks, contains_of, decimal, is_before, joined, lemma_contains,
    lemma_contains_transitive, lemma_text_before_total, lemma_text_before_transitive, list_has,
    number_text, or_empty, same, spaces, strs, text_before, text_or_empty, texts, words, words_of,
    Class,
};
use crate::web::{stats, stats_text};
use indicatif::HumanBytes;
use vstd::prelude::*;

verus! {

/// A package of a repository.
#[derive(Debug)]
pub struct RepoPkg {
    pub repo: String,
    pub name: String,
    pub version: String,
    pub desc: Option<String>,
    pub url: Option<String>,
    pub arch: Option<String>,
    pub groups: Vec<String>,
    pub download_size: u64,
    pub installed_size: u64,
    /// The version that is installed, and whether it counts as the same.
    pub installed: Option<(String, bool)>,
}

/// A package of the AUR. The popularity is written out, with two digits.
#[derive(Debug)]
pub struct AurPkg {
    pub name: String,
    pub base: String,
    pub version: String,
    pub desc: Option<String>,
    pub url: Option<String>,
    pub votes: u32,
    pub popularity: String,
    /// A number that orders packages by their popularity.
    pub popularity_rank: i64,
    pub id: u32,
    pub first_submitted: i64,
    pub last_modified: i64,
    pub out_of_date: Option<i64>,
    pub maintained: bool,
    /// The version that is installed.
    pub installed: Option<String>,
}

fn copy_text(o: &Option<String>) -> (r: Option<String>)
    ensures
        r == *o,
{
    match o {
        Some(s) => Some(s.clone()),
        None => None,
    }
}

impl Clone for AurPkg {
    fn clone(&self) -> (r: Self)
        ensures
            r == *self,
    {
        AurPkg {
            name: self.name.clone(),
            base: self.base.clone(),
            version: self.version.clone(),
            desc: copy_text(&self.desc),
            url: copy_text(&self.url),
            votes: self.votes,
            popularity: self.popularity.clone(),
            popularity_rank: self.popularity_rank,
            id: self.id,
            first_submitted: self.first_submitted,
            last_modified: self.last_modified,
            out_of_date: self.out_of_date,
            maintained: self.maintained,
            installed: copy_text(&self.installed),
        }
    }
}

/// A package of a repository of PKGBUILDs.
#[derive(Debug)]
pub struct CustomPkg {
    pub repo: String,
    pub base: String,
    pub name: String,
    pub version: String,
    pub desc: Option<String>,
    pub url: Option<String>,
    pub provides: Vec<String>,
    pub groups: Vec<String>,
    /// The version that is installed.
    pub installed: Option<String>,
}

/// A package a search has found.
#[derive(Debug)]
pub enum AnyPkg {
    RepoPkg(RepoPkg),
    AurPkg(AurPkg),
    Custom(CustomPkg),
}

impl AnyPkg {
    /// The name of a package.
    pub open spec fn name_of(self) -> Seq<char> {
        match self {
            AnyPkg::RepoPkg(p) => p.name@,
            AnyPkg::AurPkg(p) => p.name@,
            AnyPkg::Custom(p) => p.name@,
        }
    }

    /// The repository of a package; `namespace` for the AUR.
    pub open spec fn repo_of(self, namespace: Seq<char>) -> Seq<char> {
        match self {
            AnyPkg::RepoPkg(p) => p.repo@,
            AnyPkg::AurPkg(_) => namespace,
            AnyPkg::Custom(p) => p.repo@,
        }
    }

    /// The target that installs a package.
    pub open spec fn target_of(self, namespace: Seq<char>) -> Seq<char> {
        self.repo_of(namespace) + "/"@ + self.name_of()
    }
}

/// The name of a package.
pub fn pkg_name(pkg: &AnyPkg) -> (r: &str)
    ensures
        r@ == pkg.name_of(),
{
    match pkg {
        AnyPkg::RepoPkg(p) => p.name.as_str(),
        AnyPkg::AurPkg(p) => p.name.as_str(),
        AnyPkg::Custom(p) => p.name.as_str(),
    }
}

/// The repository of a package; `namespace` for the AUR.
pub fn pkg_repo<'a>(namespace: &'a str, pkg: &'a AnyPkg) -> (r: &'a str)
    ensures
        r@ == pkg.repo_of(namespace@),
{
    match pkg {
        AnyPkg::RepoPkg(p) => p.repo.as_str(),
        AnyPkg::AurPkg(_) => namespace,
        AnyPkg::Custom(p) => p.repo.as_str(),
    }
}

/// The target that installs a package.
pub fn pkg_target(namespace: &str, pkg: &AnyPkg) -> (r: String)
    ensures
        r@ == pkg.target_of(namespace@),
{
    let mut out = pkg_repo(namespace, pkg).to_owned();
    out.append("/");
    out.append(pkg_name(pkg));
    out
}

/// The base of a package, or its name if it has none.
pub fn pkg_base_or_name<'a>(base: Option<&'a str>, name: &'a str) -> (r: &'a str)
    ensures
        r@ == (match base {
            Some(b) => b@,
            None => name@,
        }),
{
    match base {
        Some(b) => b,
        None => name,
    }
}

/// Whether a repository is one of Arch Linux's own.
pub open spec fn arch_repo(name: Seq<char>) -> bool {
    ||| name == "testing"@
    ||| name == "community-testing"@
    ||| name == "core"@
    ||| name == "extra"@
    ||| name == "community"@
    ||| name == "core-testing"@
    ||| name == "extra-testing"@
    ||| name == "multilib-testing"@
}

/// Whether a repository is one of Arch Linux's own.
pub fn is_arch_repo(name: &str) -> (r: bool)
    ensures
        r == arch_repo(name@),
{
    same(name, "testing") || same(name, "community-testing") || same(name, "core") || same(
        name,
        "extra",
    ) || same(name, "community") || same(name, "core-testing") || same(name, "extra-testing")
        || same(name, "multilib-testing")
}

/// Whether a word is the name or the repository of a listed package.
pub open spec fn menu_word_of(pkgs: Seq<AnyPkg>, namespace: Seq<char>, word: Seq<char>) -> bool {
    exists|i: int|
        0 <= i < pkgs.len() && ((#[trigger] pkgs[i]).name_of() == word || pkgs[i].repo_of(namespace)
            == word)
}

fn insert_word<'a>(list: &mut Vec<&'a str>, word: &'a str)
    requires
        ascending(strs(old(list)@)),
    ensures
        ascending(strs(final(list)@)),
        forall|w: Seq<char>| #[trigger]
            strs(final(list)@).contains(w) <==> strs(
                old(list)@,
            ).contains(w) || w == word@,
{
    let ghost before = strs(list@);
    let mut p: usize = 0;
    while p < list.len() && is_before(list[p], word)
        invariant
            p <= list@.len(),
            before == strs(list@),
            *list == *old(list),
            forall|i: int| 0 <= i < p ==> text_before(#[trigger] before[i], word@),
        decreases list@.len() - p,
    {
        assert(before[p as int] == list@[p as int]@);
        p += 1;
    }
    if p < list.len() && same(list[p], word) {
        assert(before[p as int] == word@);
        return ;
    }
    proof {
        if p < list@.len() {
            assert(before[p as int] == list@[p as int]@);
            lemma_text_before_total(before[p as int], word@);
        }
        assert forall|i: int| p <= i < before.len() implies text_before(
            word@,
            #[trigger] before[i],
        ) by {
            if p < i {
                assert(text_before(before[p as int], before[i]));
                lemma_text_before_transitive(word@, before[p as int], before[i]);
            }
        }
    }
    list.insert(p, word);
    proof {
        let after = strs(list@);
        assert(after =~= before.insert(p as int, word@));
        assert forall|i: int, j: int| 0 <= i < j < after.len() implies text_before(
            #[trigger] after[i],
            #[trigger] after[j],
        ) by {
            let a = if i < p {
                i
            } else {
                i - 1
            };
            let b = if j < p {
                j
            } else {
                j - 1
            };
            if i != p {
                assert(after[i] == before[a]);
            }
            if j != p {
                assert(after[j] == before[b]);
            }
        }
        assert forall|w: Seq<char>| #[trigger] after.contains(w) <==> before.contains(w) || w
            == word@ by {
            if before.contains(w) {
                let k = choose|k: int| 0 <= k < before.len() && before[k] == w;
                if k < p {
                    assert(after[k] == w);
                } else {
                    assert(after[k + 1] == w);
                }
            }
            if w == word@ {
                assert(after[p as int] == w);
            }
            if after.contains(w) {
                let k = choose|k: int| 0 <= k < after.len() && after[k] == w;
                if k < p {
                    assert(before[k] == w);
                } else if k > p {
                    assert(before[k - 1] == w);
                }
            }
        }
    }
}

/// Every word the number menu could match, so prose can be told apart from a
/// selection by name: in order, and each of them once.
pub fn menu_words<'a>(namespace: &'a str, pkgs: &'a Vec<AnyPkg>) -> (r: Vec<&'a str>)
    ensures
        ascending(strs(r@)),
        forall|w: Seq<char>| #[trigger]
            strs(r@).contains(w) <==> menu_word_of(pkgs@, namespace@, w),
{
    let mut out: Vec<&'a str> = Vec::new();
    let mut i: usize = 0;
    while i < pkgs.len()
        invariant
            i <= pkgs@.len(),
            ascending(strs(out@)),
            forall|w: Seq<char>| #[trigger]
                strs(out@).contains(w) <==> menu_word_of(
                    pkgs@.take(i as int),
                    namespace@,
                    w,
                ),
        decreases pkgs@.len() - i,
    {
        let ghost before = strs(out@);
        insert_word(&mut out, pkg_name(&pkgs[i]));
        insert_word(&mut out, pkg_repo(namespace, &pkgs[i]));
        proof {
            let shorter = pkgs@.take(i as int);
            let longer = pkgs@.take(i + 1);
            assert(longer[i as int] == pkgs@[i as int]);
            assert forall|w: Seq<char>| #[trigger] strs(out@).contains(w)
                <==> menu_word_of(longer, namespace@, w) by {
                assert(before.contains(w) <==> menu_word_of(shorter, namespace@, w));
                if menu_word_of(shorter, namespace@, w) {
                    let k = choose|k: int|
                        0 <= k < shorter.len() && ((#[trigger] shorter[k]).name_of() == w
                            || shorter[k].repo_of(namespace@) == w);
                    assert(longer[k] == shorter[k]);
                }
                if menu_word_of(longer, namespace@, w) {
                    let k = choose|k: int|
                        0 <= k < longer.len() && ((#[trigger] longer[k]).name_of() == w
                            || longer[k].repo_of(namespace@) == w);
                    if k < i {
                        assert(shorter[k] == longer[k]);
                    }
                }
            }
        }
        i += 1;
    }
    assert(pkgs@.take(i as int) =~= pkgs@);
    out
}

/// The text `indicatif::HumanBytes` shows a number of bytes as.
pub uninterp spec fn human_size(n: u64) -> Seq<char>;

/// Writes a number of bytes by `indicatif::HumanBytes`, whose text is only
/// named.
#[verifier::external_body]
fn human_bytes(n: u64) -> (r: String)
    ensures
        r@ == human_size(n),
{
    HumanBytes(n).to_string()
}

/// The download size and the installed size of a package.
pub open spec fn sizes_of(pkg: RepoPkg) -> Seq<char> {
    human_size(pkg.download_size) + " "@ + human_size(pkg.installed_size)
}

/// Writes the download size and the installed size of a package.
pub fn repo_stats(pkg: &RepoPkg) -> (r: String)
    ensures
        r@ == sizes_of(*pkg),
{
    join_sizes(human_bytes(pkg.download_size), human_bytes(pkg.installed_size))
}

/// Two sizes, one behind the other.
pub fn join_sizes(download: String, installed: String) -> (r: String)
    ensures
        r@ == download@ + " "@ + installed@,
{
    let mut out = download;
    out.append(" ");
    out.append(installed.as_str());
    out
}

/// The votes and the popularity of a package.
pub open spec fn popularity_of(pkg: AurPkg) -> Seq<char> {
    "+"@ + decimal(pkg.votes as nat) + " ~"@ + pkg.popularity@
}

/// Writes the votes and the popularity of a package.
pub fn aur_stats(pkg: &AurPkg) -> (r: String)
    ensures
        r@ == popularity_of(*pkg),
{
    let mut out = "+".to_owned();
    out.append(number_text(pkg.votes as u64).as_str());
    out.append(" ~");
    out.append(pkg.popularity.as_str());
    out
}

/// The styles packages are listed in.
#[derive(Debug, Clone, Copy, PartialEq, Eq, Structural)]
pub struct PkgColors {
    pub name: TextStyle,
    pub version: TextStyle,
    pub stats: TextStyle,
    pub out_of_date: TextStyle,
    pub installed: TextStyle,
    pub orphaned: TextStyle,
    pub number: TextStyle,
}

/// The marks of a package, in the user's language.
#[derive(Debug)]
pub struct PkgWords {
    pub out_of_date: String,
    /// For a package that is installed in the version listed.
    pub installed: String,
    /// For a package that is installed in another version.
    pub installed_other: String,
    pub orphaned: String,
}

/// The first line of a package, as far as its version: the repository and the
/// name as they are shown, and the version.
pub open spec fn title_of(
    colors: PkgColors,
    repo: Seq<char>,
    name: Seq<char>,
    version: Seq<char>,
) -> Seq<char> {
    repo + "/"@ + name + " "@ + painted(colors.version, version)
}

/// Writes the first line of a package, as far as its version.
pub fn title(colors: &PkgColors, repo: &str, name: &str, version: &str) -> (r: String)
    ensures
        r@ == title_of(*colors, repo@, name@, version@),
{
    let mut out = repo.to_owned();
    out.append("/");
    out.append(name);
    out.append(" ");
    out.append(paint(colors.version, version).as_str());
    out
}

/// The first line of a package with its statistics.
pub open spec fn title_with_stats_of(
    colors: PkgColors,
    repo: Seq<char>,
    name: Seq<char>,
    version: Seq<char>,
    stats: Seq<char>,
) -> Seq<char> {
    title_of(colors, repo, painted(colors.name, name), version) + " ["@ + painted(
        colors.stats,
        stats,
    ) + "]"@
}

/// Writes the first line of a package with its statistics.
pub fn title_with_stats(
    colors: &PkgColors,
    repo: &str,
    name: &str,
    version: &str,
    stats: &str,
) -> (r: String)
    ensures
        r@ == title_with_stats_of(*colors, repo@, name@, version@, stats@),
{
    let mut out = title(colors, repo, paint(colors.name, name).as_str(), version);
    out.append(" [");
    out.append(paint(colors.stats, stats).as_str());
    out.append("]");
    out
}

/// The mark of an installed package; `same` tells whether it is installed in the
/// version listed.
pub open spec fn installed_mark_of(colors: PkgColors, words: PkgWords, same: Option<bool>) -> Seq<
    char,
> {
    match same {
        Some(true) => " "@ + painted(colors.installed, words.installed@),
        Some(false) => " "@ + painted(colors.installed, words.installed_other@),
        None => Seq::empty(),
    }
}

fn installed_mark(colors: &PkgColors, words: &PkgWords, same: Option<bool>) -> (r: String)
    ensures
        r@ == installed_mark_of(*colors, *words, same),
{
    match same {
        Some(same) => {
            let mut out = " ".to_owned();
            if same {
                out.append(paint(colors.installed, words.installed.as_str()).as_str());
            } else {
                out.append(paint(colors.installed, words.installed_other.as_str()).as_str());
            }
            out
        },
        None => String::new(),
    }
}

/// Whether a package is installed, and if so whether in the version listed.
pub open spec fn same_version(installed: Option<String>, version: Seq<char>) -> Option<bool> {
    match installed {
        Some(v) => Some(v@ == version),
        None => None,
    }
}

fn installed_same(installed: &Option<String>, version: &str) -> (r: Option<bool>)
    ensures
        r == same_version(*installed, version@),
{
    match installed {
        Some(v) => Some(same(v.as_str(), version)),
        None => None,
    }
}

/// The marks of a package of the AUR: out of date, installed, orphaned.
pub open spec fn aur_marks_of(colors: PkgColors, words: PkgWords, pkg: AurPkg) -> Seq<char> {
    let old = match pkg.out_of_date {
        Some(_) => " "@ + painted(colors.out_of_date, words.out_of_date@),
        None => Seq::empty(),
    };
    let orphaned = if pkg.maintained {
        Seq::empty()
    } else {
        " "@ + painted(colors.orphaned, words.orphaned@)
    };
    old + installed_mark_of(colors, words, same_version(pkg.installed, pkg.version@)) + orphaned
}

/// Writes the marks of a package of the AUR.
pub fn aur_marks(colors: &PkgColors, words: &PkgWords, pkg: &AurPkg) -> (r: String)
    ensures
        r@ == aur_marks_of(*colors, *words, *pkg),
{
    let mut out = String::new();
    if let Some(_) = pkg.out_of_date {
        out.append(" ");
        out.append(paint(colors.out_of_date, words.out_of_date.as_str()).as_str());
    }
    out.append(
        installed_mark(
            colors,
            words,
            installed_same(&pkg.installed, pkg.version.as_str()),
        ).as_str(),
    );
    if !pkg.maintained {
        out.append(" ");
        out.append(paint(colors.orphaned, words.orphaned.as_str()).as_str());
    }
    assert(out@ =~= aur_marks_of(*colors, *words, *pkg));
    out
}

/// Writes the marks of a package of a repository of PKGBUILDs: installed.
pub fn custom_marks(colors: &PkgColors, words: &PkgWords, pkg: &CustomPkg) -> (r: String)
    ensures
        r@ == installed_mark_of(*colors, *words, same_version(pkg.installed, pkg.version@)),
{
    installed_mark(colors, words, installed_same(&pkg.installed, pkg.version.as_str()))
}

/// Groups, each painted, with spaces between them.
pub open spec fn group_list_of(style: TextStyle, groups: Seq<Seq<char>>) -> Seq<char>
    decreases groups.len(),
{
    if groups.len() == 0 {
        Seq::empty()
    } else if groups.len() == 1 {
        painted(style, groups[0])
    } else {
        group_list_of(style, groups.drop_last()) + " "@ + painted(style, groups.last())
    }
}

/// The groups of a package in brackets, if it has any.
pub open spec fn groups_mark_of(style: TextStyle, groups: Seq<Seq<char>>) -> Seq<char> {
    if groups.len() == 0 {
        Seq::empty()
    } else {
        " "@ + painted(style, "("@) + group_list_of(style, groups) + painted(style, ")"@)
    }
}

fn groups_mark(style: TextStyle, groups: &Vec<String>) -> (r: String)
    ensures
        r@ == groups_mark_of(style, texts(groups@)),
{
    let mut out = String::new();
    if groups.len() == 0 {
        return out;
    }
    let ghost all = texts(groups@);
    out.append(" ");
    out.append(paint(style, "(").as_str());
    let ghost start = out@;
    out.append(paint(style, groups[0].as_str()).as_str());
    let mut i: usize = 1;
    assert(out@ =~= start + group_list_of(style, all.take(1)));
    while i < groups.len()
        invariant
            1 <= i <= groups@.len(),
            all == texts(groups@),
            out@ == start + group_list_of(style, all.take(i as int)),
        decreases groups@.len() - i,
    {
        out.append(" ");
        out.append(paint(style, groups[i].as_str()).as_str());
        proof {
            assert(all.take(i + 1).drop_last() =~= all.take(i as int));
            assert(all.take(i + 1).last() == groups@[i as int]@);
            assert(out@ =~= start + (group_list_of(style, all.take(i as int)) + " "@ + painted(
                style,
                groups@[i as int]@,
            )));
        }
        i += 1;
    }
    assert(all.take(i as int) =~= all);
    out.append(paint(style, ")").as_str());
    out
}

/// The marks of a package of a repository: installed, and its groups.
pub open spec fn repo_marks_of(colors: PkgColors, words: PkgWords, pkg: RepoPkg) -> Seq<char> {
    let same = match pkg.installed {
        Some((_, same)) => Some(same),
        None => None,
    };
    installed_mark_of(colors, words, same) + groups_mark_of(colors.orphaned, texts(pkg.groups@))
}

/// Writes the marks of a package of a repository.
pub fn repo_marks(colors: &PkgColors, words: &PkgWords, pkg: &RepoPkg) -> (r: String)
    ensures
        r@ == repo_marks_of(*colors, *words, *pkg),
{
    let same = match &pkg.installed {
        Some(installed) => Some(installed.1),
        None => None,
    };
    let mut out = installed_mark(colors, words, same);
    out.append(groups_mark(colors.orphaned, &pkg.groups).as_str());
    out
}

/// The page of a package on Arch Linux's site, below its address; none unless
/// its repository is one of Arch Linux's own.
pub open spec fn arch_page_of(pkg: RepoPkg) -> Option<Seq<char>> {
    let arch = match pkg.arch {
        Some(a) => a@,
        None => "any"@,
    };
    if arch_repo(pkg.repo@) {
        Some("packages/"@ + pkg.repo@ + "/"@ + arch + "/"@ + pkg.name@ + "/"@)
    } else {
        None
    }
}

/// Where a package stands on Arch Linux's site.
pub fn arch_page(pkg: &RepoPkg) -> (r: Option<String>)
    ensures
        match r {
            Some(s) => arch_page_of(*pkg) == Some(s@),
            None => arch_page_of(*pkg) is None,
        },
{
    if !is_arch_repo(pkg.repo.as_str()) {
        return None;
    }
    let mut out = "packages/".to_owned();
    out.append(pkg.repo.as_str());
    out.append("/");
    match &pkg.arch {
        Some(arch) => out.append(arch.as_str()),
        None => out.append("any"),
    }
    out.append("/");
    out.append(pkg.name.as_str());
    out.append("/");
    Some(out)
}

/// Where a package stands on the AUR's site, below its address.
pub fn aur_page(name: &str) -> (r: String)
    ensures
        r@ == "packages/"@ + name@,
{
    let mut out = "packages/".to_owned();
    out.append(name);
    out
}

/// The words of a description; those of `none` without one.
pub fn desc_words<'a>(desc: Option<&'a str>, none: &'a str) -> (r: Vec<&'a str>)
    ensures
        strs(r@) == words_of(
            match desc {
                Some(d) => d@,
                None => none@,
            },
            Class::White,
        ),
{
    match desc {
        Some(d) => words(d, Class::White),
        None => words(none, Class::White),
    }
}

/// A number with blanks in front, to fill a column.
pub open spec fn column(n: nat, width: nat) -> Seq<char> {
    let digits = decimal(n);
    if digits.len() < width {
        blanks((width - digits.len()) as nat) + digits
    } else {
        digits
    }
}

/// Writes a number with blanks in front, to fill a column.
pub fn number_column(n: usize, width: usize) -> (r: String)
    ensures
        r@ == column(n as nat, width as nat),
{
    let digits = number_text(n as u64);
    let len: usize = digits.as_str().unicode_len();
    if len < width {
        let mut out = spaces(width - len);
        out.append(digits.as_str());
        out
    } else {
        digits
    }
}

/// The width of the column that numbers a list.
pub fn column_width(len: usize) -> (r: usize)
    ensures
        r == decimal(len as nat).len(),
{
    number_text(len as u64).as_str().unicode_len()
}

/// What the model is told about a package: its number, repository, name and
/// version, for the AUR its votes and popularity, whether it is installed, and
/// below that its description.
pub open spec fn entry_of(n: nat, pkg: AnyPkg) -> Seq<char> {
    let (repo, version, desc, extra, installed) = match pkg {
        AnyPkg::RepoPkg(p) => (
            p.repo@,
            p.version@,
            or_empty(p.desc),
            Seq::empty(),
            p.installed is Some,
        ),
        AnyPkg::AurPkg(p) => (
            "aur"@,
            p.version@,
            or_empty(p.desc),
            stats_text(p.votes, p.popularity@),
            p.installed is Some,
        ),
        AnyPkg::Custom(p) => (
            p.repo@,
            p.version@,
            or_empty(p.desc),
            Seq::empty(),
            p.installed is Some,
        ),
    };
    let mark = if installed {
        " installed"@
    } else {
        Seq::empty()
    };
    decimal(n) + ". "@ + repo + "/"@ + pkg.name_of() + " "@ + version + extra + mark + "\n   "@ + desc
        + "\n"@
}

/// The list of packages the model chooses from.
pub open spec fn listing_of(pkgs: Seq<AnyPkg>) -> Seq<char>
    decreases pkgs.len(),
{
    if pkgs.len() == 0 {
        Seq::empty()
    } else {
        listing_of(pkgs.drop_last()) + entry_of(pkgs.len(), pkgs.last())
    }
}

fn entry(n: usize, pkg: &AnyPkg) -> (r: String)
    ensures
        r@ == entry_of(n as nat, *pkg),
{
    let mut out = number_text(n as u64);
    out.append(". ");
    let (repo, version, desc, installed) = match pkg {
        AnyPkg::RepoPkg(p) => (
            p.repo.as_str(),
            p.version.as_str(),
            text_or_empty(&p.desc),
            p.installed.is_some(),
        ),
        AnyPkg::AurPkg(p) => (
            "aur",
            p.version.as_str(),
            text_or_empty(&p.desc),
            p.installed.is_some(),
        ),
        AnyPkg::Custom(p) => (
            p.repo.as_str(),
            p.version.as_str(),
            text_or_empty(&p.desc),
            p.installed.is_some(),
        ),
    };
    out.append(repo);
    out.append("/");
    out.append(pkg_name(pkg));
    out.append(" ");
    out.append(version);
    if let AnyPkg::AurPkg(p) = pkg {
        out.append(stats(p.votes, p.popularity.as_str()).as_str());
    }
    if installed {
        out.append(" installed");
    }
    out.append("\n   ");
    out.append(desc);
    out.append("\n");
    assert(out@ =~= entry_of(n as nat, *pkg));
    out
}

/// Writes the list of packages the model chooses from.
pub fn listing(pkgs: &Vec<AnyPkg>) -> (r: String)
    ensures
        r@ == listing_of(pkgs@),
{
    let mut out = String::new();
    let mut i: usize = 0;
    assert(pkgs@.take(0) =~= Seq::<AnyPkg>::empty());
    while i < pkgs.len()
        invariant
            i <= pkgs@.len(),
            out@ == listing_of(pkgs@.take(i as int)),
        decreases pkgs@.len() - i,
    {
        assert(pkgs@.take(i + 1).drop_last() =~= pkgs@.take(i as int));
        out.append(entry(i + 1, &pkgs[i]).as_str());
        i += 1;
    }
    assert(pkgs@.take(i as int) =~= pkgs@);
    out
}

/// Whether a package is called exactly like one of the targets.
pub open spec fn exact(targets: Seq<Seq<char>>, pkg: AnyPkg) -> bool {
    targets.contains(pkg.name_of())
}

/// The packages with those first whose name is one of the targets.
pub open spec fn exact_first_of(targets: Seq<Seq<char>>, pkgs: Seq<AnyPkg>) -> Seq<AnyPkg> {
    pkgs.filter(|p: AnyPkg| exact(targets, p)) + pkgs.filter(|p: AnyPkg| !exact(targets, p))
}

/// Moves the packages whose name is one of the targets to the front. Among
/// themselves these and the others stay in order.
pub fn exact_first(pkgs: Vec<AnyPkg>, targets: &Vec<String>) -> (r: Vec<AnyPkg>)
    ensures
        r@ == exact_first_of(texts(targets@), pkgs@),
{
    let ghost all = pkgs@;
    let ghost names = texts(targets@);
    let ghost yes = |p: AnyPkg| exact(names, p);
    let ghost no = |p: AnyPkg| !exact(names, p);
    let mut rest = pkgs;
    let mut matched: Vec<AnyPkg> = Vec::new();
    let mut others: Vec<AnyPkg> = Vec::new();
    let ghost mut done: int = 0;
    proof {
        assert(all.take(0) =~= Seq::<AnyPkg>::empty());
        assert(all.skip(0) =~= all);
        reveal(Seq::filter);
    }
    while rest.len() > 0
        invariant
            0 <= done <= all.len(),
            names == texts(targets@),
            yes == (|p: AnyPkg| exact(names, p)),
            no == (|p: AnyPkg| !exact(names, p)),
            rest@ == all.skip(done),
            matched@ == all.take(done).filter(yes),
            others@ == all.take(done).filter(no),
        decreases rest@.len(),
    {
        let ghost before = rest@;
        let pkg = rest.remove(0);
        proof {
            assert(before[0] == all[done]);
            assert(rest@ =~= all.skip(done + 1));
            assert(all.take(done + 1) =~= all.take(done).push(pkg));
            all.take(done).lemma_filter_push(pkg, yes);
            all.take(done).lemma_filter_push(pkg, no);
            done = done + 1;
        }
        if list_has(targets.as_slice(), pkg_name(&pkg)) {
            matched.push(pkg);
        } else {
            others.push(pkg);
        }
    }
    assert(all.take(done) =~= all);
    matched.append(&mut others);
    matched
}

/// Moving exact matches to the front loses and adds no package.
pub proof fn law_exact_first_keeps_every_package(targets: Seq<Seq<char>>, pkgs: Seq<AnyPkg>)
    ensures
        exact_first_of(targets, pkgs).to_multiset() == pkgs.to_multiset(),
    decreases pkgs.len(),
{
    broadcast use vstd::seq_lib::group_to_multiset_ensures;

    let yes = |p: AnyPkg| exact(targets, p);
    let no = |p: AnyPkg| !exact(targets, p);
    if pkgs.len() == 0 {
        reveal(Seq::filter);
        assert(exact_first_of(targets, pkgs) =~= pkgs);
    } else {
        let prev = pkgs.drop_last();
        let last = pkgs.last();
        law_exact_first_keeps_every_package(targets, prev);
        assert(prev.push(last) =~= pkgs);
        prev.lemma_filter_push(last, yes);
        prev.lemma_filter_push(last, no);
        vstd::seq_lib::lemma_multiset_commutative(prev.filter(yes), prev.filter(no));
        vstd::seq_lib::lemma_multiset_commutative(pkgs.filter(yes), pkgs.filter(no));
        assert(pkgs.to_multiset() =~= prev.to_multiset().insert(last));
        if exact(targets, last) {
            assert(pkgs.filter(yes) =~= prev.filter(yes).push(last));
            assert(pkgs.filter(no) =~= prev.filter(no));
        } else {
            assert(pkgs.filter(yes) =~= prev.filter(yes));
            assert(pkgs.filter(no) =~= prev.filter(no).push(last));
        }
        assert(exact_first_of(targets, pkgs).to_multiset() =~= exact_first_of(
            targets,
            prev,
        ).to_multiset().insert(last));
    }
}

/// A package is installed by its repository, a slash and its name; the repository
/// of one of the AUR is the name that the AUR goes by.
pub proof fn law_a_target_names_repository_and_package(pkg: AnyPkg, namespace: Seq<char>)
    ensures
        match pkg {
            AnyPkg::RepoPkg(p) => pkg.target_of(namespace) == p.repo@ + seq!['/'] + p.name@,
            AnyPkg::AurPkg(p) => pkg.target_of(namespace) == namespace + seq!['/'] + p.name@,
            AnyPkg::Custom(p) => pkg.target_of(namespace) == p.repo@ + seq!['/'] + p.name@,
        },
{
    reveal_strlit("/");
    assert("/"@ =~= seq!['/']);
}

/// The words of a list are the names and the repositories of all its packages,
/// whichever they are, and nothing else.
pub proof fn law_every_listed_name_is_a_menu_word(
    pkgs: Seq<AnyPkg>,
    namespace: Seq<char>,
    word: Seq<char>,
)
    ensures
        forall|i: int|
            0 <= i < pkgs.len() ==> match #[trigger] pkgs[i] {
                AnyPkg::RepoPkg(p) => menu_word_of(pkgs, namespace, p.name@) && menu_word_of(
                    pkgs,
                    namespace,
                    p.repo@,
                ),
                AnyPkg::AurPkg(p) => menu_word_of(pkgs, namespace, p.name@) && menu_word_of(
                    pkgs,
                    namespace,
                    namespace,
                ),
                AnyPkg::Custom(p) => menu_word_of(pkgs, namespace, p.name@) && menu_word_of(
                    pkgs,
                    namespace,
                    p.repo@,
                ),
            },
        (forall|i: int|
            0 <= i < pkgs.len() ==> match #[trigger] pkgs[i] {
                AnyPkg::RepoPkg(p) => p.name@ != word && p.repo@ != word,
                AnyPkg::AurPkg(p) => p.name@ != word && namespace != word,
                AnyPkg::Custom(p) => p.name@ != word && p.repo@ != word,
            }) ==> !menu_word_of(pkgs, namespace, word),
{
    assert forall|i: int| 0 <= i < pkgs.len() implies match #[trigger] pkgs[i] {
        AnyPkg::RepoPkg(p) => menu_word_of(pkgs, namespace, p.name@) && menu_word_of(
            pkgs,
            namespace,
            p.repo@,
        ),
        AnyPkg::AurPkg(p) => menu_word_of(pkgs, namespace, p.name@) && menu_word_of(
            pkgs,
            namespace,
            namespace,
        ),
        AnyPkg::Custom(p) => menu_word_of(pkgs, namespace, p.name@) && menu_word_of(
            pkgs,
            namespace,
            p.repo@,
        ),
    } by {
        assert(menu_word_of(pkgs, namespace, pkgs[i].name_of()));
        assert(menu_word_of(pkgs, namespace, pkgs[i].repo_of(namespace)));
    }
}

/// Packages that are called exactly like a target come before all others, and
/// neither these nor the others change their order: the list is those of them that
/// are, and then those that are not.
pub proof fn law_exact_matches_come_first(targets: Seq<Seq<char>>, pkgs: Seq<AnyPkg>, i: int, j: int)
    requires
        0 <= i < j < exact_first_of(targets, pkgs).len(),
    ensures
        targets.contains(exact_first_of(targets, pkgs)[j].name_of()) ==> targets.contains(
            exact_first_of(targets, pkgs)[i].name_of(),
        ),
        exact_first_of(targets, pkgs).filter(|p: AnyPkg| targets.contains(p.name_of()))
            == pkgs.filter(|p: AnyPkg| targets.contains(p.name_of())),
        exact_first_of(targets, pkgs).filter(|p: AnyPkg| !targets.contains(p.name_of()))
            == pkgs.filter(|p: AnyPkg| !targets.contains(p.name_of())),
{
    let yes = |p: AnyPkg| exact(targets, p);
    let no = |p: AnyPkg| !exact(targets, p);
    let first = pkgs.filter(yes);
    let last = pkgs.filter(no);
    let all = exact_first_of(targets, pkgs);
    assert(all == first + last);
    assert((|p: AnyPkg| targets.contains(p.name_of())) =~= yes);
    assert((|p: AnyPkg| !targets.contains(p.name_of())) =~= no);
    if i < first.len() {
        pkgs.lemma_filter_pred(yes, i);
    } else {
        pkgs.lemma_filter_pred(no, j - first.len());
    }
    assert forall|k: int| 0 <= k < first.len() implies yes(#[trigger] first[k]) by {
        pkgs.lemma_filter_pred(yes, k);
    }
    assert forall|k: int| 0 <= k < last.len() implies no(#[trigger] last[k]) by {
        pkgs.lemma_filter_pred(no, k);
    }
    Seq::filter_distributes_over_add(first, last, yes);
    Seq::filter_distributes_over_add(first, last, no);
    lemma_filter_all(first, yes);
    lemma_filter_none(last, yes);
    lemma_filter_none(first, no);
    lemma_filter_all(last, no);
    assert(first + Seq::<AnyPkg>::empty() =~= first);
    assert(Seq::<AnyPkg>::empty() + last =~= last);
}

proof fn lemma_filter_all(list: Seq<AnyPkg>, keep: spec_fn(AnyPkg) -> bool)
    requires
        forall|k: int| 0 <= k < list.len() ==> keep(#[trigger] list[k]),
    ensures
        list.filter(keep) == list,
    decreases list.len(),
{
    reveal(Seq::filter);
    if list.len() > 0 {
        assert forall|k: int| 0 <= k < list.drop_last().len() implies keep(
            #[trigger] list.drop_last()[k],
        ) by {
            assert(list.drop_last()[k] == list[k]);
        }
        lemma_filter_all(list.drop_last(), keep);
        assert(keep(list[list.len() - 1]));
        assert(list.drop_last().push(list.last()) =~= list);
    } else {
        assert(list.filter(keep) =~= list);
    }
}

proof fn lemma_filter_none(list: Seq<AnyPkg>, keep: spec_fn(AnyPkg) -> bool)
    requires
        forall|k: int| 0 <= k < list.len() ==> !keep(#[trigger] list[k]),
    ensures
        list.filter(keep) == Seq::<AnyPkg>::empty(),
    decreases list.len(),
{
    reveal(Seq::filter);
    if list.len() > 0 {
        assert forall|k: int| 0 <= k < list.drop_last().len() implies !keep(
            #[trigger] list.drop_last()[k],
        ) by {
            assert(list.drop_last()[k] == list[k]);
        }
        lemma_filter_none(list.drop_last(), keep);
        assert(!keep(list[list.len() - 1]));
    } else {
        assert(list.filter(keep) =~= Seq::<AnyPkg>::empty());
    }
}

/// The line that a package is listed by, as far as its version.
pub open spec fn numbered(n: nat, pkg: AnyPkg) -> Seq<char> {
    match pkg {
        AnyPkg::RepoPkg(p) => decimal(n) + ". "@ + p.repo@ + "/"@ + p.name@ + " "@ + p.version@,
        AnyPkg::AurPkg(p) => decimal(n) + ". "@ + "aur"@ + "/"@ + p.name@ + " "@ + p.version@,
        AnyPkg::Custom(p) => decimal(n) + ". "@ + p.repo@ + "/"@ + p.name@ + " "@ + p.version@,
    }
}

/// The description of a package, or nothing.
pub open spec fn described(pkg: AnyPkg) -> Seq<char> {
    match pkg {
        AnyPkg::RepoPkg(p) => or_empty(p.desc),
        AnyPkg::AurPkg(p) => or_empty(p.desc),
        AnyPkg::Custom(p) => or_empty(p.desc),
    }
}

proof fn lemma_six_parts(
    a: Seq<char>,
    b: Seq<char>,
    c: Seq<char>,
    d: Seq<char>,
    e: Seq<char>,
    f: Seq<char>,
)
    ensures
        contains_of(a + b + c + d + e + f, a),
        contains_of(a + b + c + d + e + f, e),
{
    let all = a + b + c + d + e + f;
    lemma_contains(Seq::empty(), a, b + c + d + e + f, all);
    lemma_contains(a + b + c + d, e, f, all);
}

proof fn lemma_entry_holds(n: nat, pkg: AnyPkg)
    ensures
        contains_of(entry_of(n, pkg), numbered(n, pkg)),
        contains_of(entry_of(n, pkg), described(pkg)),
{
    let line = numbered(n, pkg);
    let extra = match pkg {
        AnyPkg::AurPkg(p) => stats_text(p.votes, p.popularity@),
        _ => Seq::empty(),
    };
    let mark = if marked(pkg) {
        " installed"@
    } else {
        Seq::empty()
    };
    let desc = described(pkg);
    assert(entry_of(n, pkg) == line + extra + mark + "\n   "@ + desc + "\n"@);
    lemma_six_parts(line, extra, mark, "\n   "@, desc, "\n"@);
}

/// The model is shown every package of the list, at its own number: wherever a
/// package stands, the list has its number, its repository, name and version, and
/// its description.
pub proof fn law_every_package_is_listed_by_its_number(pkgs: Seq<AnyPkg>, k: int)
    requires
        0 <= k < pkgs.len(),
    ensures
        contains_of(listing_of(pkgs), numbered((k + 1) as nat, pkgs[k])),
        contains_of(listing_of(pkgs), described(pkgs[k])),
    decreases pkgs.len(),
{
    let line = numbered((k + 1) as nat, pkgs[k]);
    let desc = described(pkgs[k]);
    let prev = pkgs.drop_last();
    let shorter = listing_of(prev);
    let last = entry_of(pkgs.len(), pkgs.last());
    let all = listing_of(pkgs);
    assert(all == shorter + last);
    if k < prev.len() {
        law_every_package_is_listed_by_its_number(prev, k);
        assert(prev[k] == pkgs[k]);
        lemma_contains(Seq::empty(), shorter, last, all);
        lemma_contains_transitive(all, shorter, line);
        lemma_contains_transitive(all, shorter, desc);
    } else {
        lemma_entry_holds(pkgs.len(), pkgs.last());
        lemma_contains(shorter, last, Seq::empty(), all);
        lemma_contains_transitive(all, last, line);
        lemma_contains_transitive(all, last, desc);
    }
}

/// A list goes on where the shorter one ends: one more package adds its entry, with
/// the next number, behind all others.
pub proof fn law_a_list_grows_by_its_last_package(pkgs: Seq<AnyPkg>, pkg: AnyPkg)
    ensures
        listing_of(pkgs.push(pkg)) == listing_of(pkgs) + entry_of(pkgs.len() + 1, pkg),
        listing_of(Seq::empty()).len() == 0,
{
    assert(pkgs.push(pkg).drop_last() =~= pkgs);
}

/// Whether a package is installed.
pub open spec fn marked(pkg: AnyPkg) -> bool {
    match pkg {
        AnyPkg::RepoPkg(p) => p.installed is Some,
        AnyPkg::AurPkg(p) => p.installed is Some,
        AnyPkg::Custom(p) => p.installed is Some,
    }
}

/// What the model is told of a package says that it is installed when it is; a
/// package that is not is told of in the same words but these. The votes and the
/// popularity of a package of the AUR are told.
pub proof fn law_the_model_is_told_what_is_installed(n: nat, pkg: AnyPkg)
    ensures
        match pkg {
            AnyPkg::RepoPkg(p) => entry_of(n, pkg) == decimal(n) + ". "@ + p.repo@ + "/"@ + p.name@
                + " "@ + p.version@ + (if p.installed is Some {
                " installed"@
            } else {
                Seq::empty()
            }) + "\n   "@ + (if p.desc is Some {
                p.desc->0@
            } else {
                Seq::empty()
            }) + "\n"@,
            AnyPkg::AurPkg(p) => entry_of(n, pkg) == decimal(n) + ". "@ + "aur"@ + "/"@ + p.name@
                + " "@ + p.version@ + " votes="@ + decimal(p.votes as nat) + " popularity="@
                + p.popularity@ + (if p.installed is Some {
                " installed"@
            } else {
                Seq::empty()
            }) + "\n   "@ + (if p.desc is Some {
                p.desc->0@
            } else {
                Seq::empty()
            }) + "\n"@,
            AnyPkg::Custom(p) => entry_of(n, pkg) == decimal(n) + ". "@ + p.repo@ + "/"@ + p.name@
                + " "@ + p.version@ + (if p.installed is Some {
                " installed"@
            } else {
                Seq::empty()
            }) + "\n   "@ + (if p.desc is Some {
                p.desc->0@
            } else {
                Seq::empty()
            }) + "\n"@,
        },
{
    match pkg {
        AnyPkg::RepoPkg(p) => {
            assert(p.version@ + Seq::<char>::empty() =~= p.version@);
            assert(entry_of(n, pkg) =~= decimal(n) + ". "@ + p.repo@ + "/"@ + p.name@ + " "@
                + p.version@ + (if p.installed is Some {
                " installed"@
            } else {
                Seq::empty()
            }) + "\n   "@ + or_empty(p.desc) + "\n"@);
        },
        AnyPkg::AurPkg(p) => {
            assert(entry_of(n, pkg) =~= decimal(n) + ". "@ + "aur"@ + "/"@ + p.name@ + " "@
                + p.version@ + " votes="@ + decimal(p.votes as nat) + " popularity="@
                + p.popularity@ + (if p.installed is Some {
                " installed"@
            } else {
                Seq::empty()
            }) + "\n   "@ + or_empty(p.desc) + "\n"@);
        },
        AnyPkg::Custom(p) => {
            assert(entry_of(n, pkg) =~= decimal(n) + ". "@ + p.repo@ + "/"@ + p.name@ + " "@
                + p.version@ + (if p.installed is Some {
                " installed"@
            } else {
                Seq::empty()
            }) + "\n   "@ + or_empty(p.desc) + "\n"@);
        },
    }
}

/// All groups of a package are shown: the list of them is each of them painted,
/// with a space between any two.
pub proof fn law_every_group_is_shown(style: TextStyle, groups: Seq<Seq<char>>)
    ensures
        group_list_of(style, groups) == joined(
            Seq::new(groups.len(), |i: int| painted(style, groups[i])),
            seq![' '],
        ),
        groups.len() == 0 ==> groups_mark_of(style, groups).len() == 0,
        groups.len() > 0 ==> contains_of(
            groups_mark_of(style, groups),
            group_list_of(style, groups),
        ),
    decreases groups.len(),
{
    let shown = Seq::new(groups.len(), |i: int| painted(style, groups[i]));
    reveal_strlit(" ");
    assert(" "@ =~= seq![' ']);
    if groups.len() > 1 {
        law_every_group_is_shown(style, groups.drop_last());
        assert(shown.drop_last() =~= Seq::new(
            groups.drop_last().len(),
            |i: int| painted(style, groups.drop_last()[i]),
        ));
    }
    if groups.len() > 0 {
        lemma_contains(
            " "@ + painted(style, "("@),
            group_list_of(style, groups),
            painted(style, ")"@),
            groups_mark_of(style, groups),
        );
    }
}

/// A package of the AUR is marked when it was flagged out of date, when it is
/// installed, with a mark of its own for another version, and when nobody maintains
/// it; and it has no mark where none of these holds.
pub proof fn law_every_mark_is_shown(colors: PkgColors, words: PkgWords, pkg: AurPkg)
    ensures
        pkg.out_of_date is Some ==> contains_of(
            aur_marks_of(colors, words, pkg),
            painted(colors.out_of_date, words.out_of_date@),
        ),
        pkg.installed is Some && pkg.installed->0@ == pkg.version@ ==> contains_of(
            aur_marks_of(colors, words, pkg),
            painted(colors.installed, words.installed@),
        ),
        pkg.installed is Some && pkg.installed->0@ != pkg.version@ ==> contains_of(
            aur_marks_of(colors, words, pkg),
            painted(colors.installed, words.installed_other@),
        ),
        !pkg.maintained ==> contains_of(
            aur_marks_of(colors, words, pkg),
            painted(colors.orphaned, words.orphaned@),
        ),
        pkg.out_of_date is None && pkg.installed is None && pkg.maintained ==> aur_marks_of(
            colors,
            words,
            pkg,
        ).len() == 0,
{
    let all = aur_marks_of(colors, words, pkg);
    let inst = installed_mark_of(colors, words, same_version(pkg.installed, pkg.version@));
    let old = match pkg.out_of_date {
        Some(_) => " "@ + painted(colors.out_of_date, words.out_of_date@),
        None => Seq::empty(),
    };
    let orphaned = if pkg.maintained {
        Seq::empty()
    } else {
        " "@ + painted(colors.orphaned, words.orphaned@)
    };
    assert(all == old + inst + orphaned);
    if pkg.out_of_date is Some {
        lemma_contains(" "@, painted(colors.out_of_date, words.out_of_date@), inst + orphaned, all);
    }
    if pkg.installed is Some && pkg.installed->0@ == pkg.version@ {
        lemma_contains(old + " "@, painted(colors.installed, words.installed@), orphaned, all);
    }
    if pkg.installed is Some && pkg.installed->0@ != pkg.version@ {
        lemma_contains(old + " "@, painted(colors.installed, words.installed_other@), orphaned, all);
    }
    if !pkg.maintained {
        lemma_contains(
            old + inst + " "@,
            painted(colors.orphaned, words.orphaned@),
            Seq::empty(),
            all,
        );
    }
}

/// A package of a repository is marked when it is installed, with a mark of its own
/// for another version, and with its groups.
pub proof fn law_marks_of_a_repository_package(colors: PkgColors, words: PkgWords, pkg: RepoPkg)
    ensures
        match pkg.installed {
            Some((_, true)) => contains_of(
                repo_marks_of(colors, words, pkg),
                painted(colors.installed, words.installed@),
            ),
            Some((_, false)) => contains_of(
                repo_marks_of(colors, words, pkg),
                painted(colors.installed, words.installed_other@),
            ),
            None => true,
        },
        contains_of(
            repo_marks_of(colors, words, pkg),
            groups_mark_of(colors.orphaned, texts(pkg.groups@)),
        ),
        pkg.installed is None && pkg.groups@.len() == 0 ==> repo_marks_of(
            colors,
            words,
            pkg,
        ).len() == 0,
{
    let all = repo_marks_of(colors, words, pkg);
    let groups = groups_mark_of(colors.orphaned, texts(pkg.groups@));
    if let Some((_, current)) = pkg.installed {
        let word = if current {
            words.installed@
        } else {
            words.installed_other@
        };
        lemma_contains(" "@, painted(colors.installed, word), groups, all);
        lemma_contains(" "@ + painted(colors.installed, word), groups, Seq::empty(), all);
    } else {
        lemma_contains(Seq::empty(), groups, Seq::empty(), all);
    }
}

/// A number fills its column from the right: it is as wide as the column, unless
/// the number itself is wider, and ends with the digits, with nothing but blanks in
/// front of them.
pub proof fn law_a_number_fills_its_column(n: nat, width: nat)
    ensures
        ({
            let digits = decimal(n);
            let shown = column(n, width);
            &&& shown.len() == (if digits.len() < width {
                width
            } else {
                digits.len()
            })
            &&& shown.skip(shown.len() - digits.len()) == digits
            &&& forall|i: int| 0 <= i < shown.len() - digits.len() ==> #[trigger] shown[i] == ' '
        }),
{
    let shown = column(n, width);
    assert(shown.skip(shown.len() - decimal(n).len()) =~= decimal(n));
}

/// The first line of a package holds its repository, its name, its version and its
/// statistics, in this order.
pub proof fn law_a_title_holds_name_and_version(
    colors: PkgColors,
    repo: Seq<char>,
    name: Seq<char>,
    version: Seq<char>,
    stats: Seq<char>,
)
    ensures
        title_of(colors, repo, name, version) == repo + seq!['/'] + name + seq![' '] + painted(
            colors.version,
            version,
        ),
        title_with_stats_of(colors, repo, name, version, stats) == repo + seq!['/'] + painted(
            colors.name,
            name,
        ) + seq![' '] + painted(colors.version, version) + seq![' ', '['] + painted(
            colors.stats,
            stats,
        ) + seq![']'],
{
    reveal_strlit("/");
    reveal_strlit(" ");
    reveal_strlit(" [");
    reveal_strlit("]");
    assert("/"@ =~= seq!['/']);
    assert(" "@ =~= seq![' ']);
    assert(" ["@ =~= seq![' ', '[']);
    assert("]"@ =~= seq![']']);
}

/// The page of a package is that of its repository, its architecture, or any where
/// it has none, and its name; only Arch Linux's own repositories have pages.
pub proof fn law_a_package_page_names_the_package(pkg: RepoPkg)
    ensures
        arch_page_of(pkg) is Some <==> arch_repo(pkg.repo@),
        arch_page_of(pkg) is Some ==> contains_of(
            arch_page_of(pkg)->0,
            "/"@ + pkg.repo@ + "/"@ + (if pkg.arch is Some {
                pkg.arch->0@
            } else {
                "any"@
            }) + "/"@ + pkg.name@ + "/"@,
        ),
        arch_repo("core"@) && arch_repo("extra"@) && arch_repo("testing"@) && arch_repo(
            "community"@,
        ) && arch_repo("core-testing"@) && arch_repo("extra-testing"@) && arch_repo(
            "community-testing"@,
        ) && arch_repo("multilib-testing"@),
{
    if arch_repo(pkg.repo@) {
        let arch = if pkg.arch is Some {
            pkg.arch->0@
        } else {
            "any"@
        };
        reveal_strlit("packages/");
        reveal_strlit("/");
        assert("packages/"@ =~= "packages/"@.take(8) + "/"@);
        lemma_contains(
            "packages/"@.take(8),
            "/"@ + pkg.repo@ + "/"@ + arch + "/"@ + pkg.name@ + "/"@,
            Seq::empty(),
            arch_page_of(pkg)->0,
        );
    }
}

/// The statistics of a package: what is downloaded and what is installed, and for the
/// AUR the votes and the popularity.
pub proof fn law_statistics_are_told(repo: RepoPkg, aur: AurPkg)
    ensures
        sizes_of(repo) == human_size(repo.download_size) + seq![' '] + human_size(
            repo.installed_size,
        ),
        popularity_of(aur) == seq!['+'] + decimal(aur.votes as nat) + seq![' ', '~']
            + aur.popularity@,
{
    reveal_strlit(" ");
    reveal_strlit("+");
    reveal_strlit(" ~");
    assert(" "@ =~= seq![' ']);
    assert("+"@ =~= seq!['+']);
    assert(" ~"@ =~= seq![' ', '~']);
}

/// A package that is installed is marked as such, in words of its own where the
/// version is another one, and one that is not has no mark.
pub proof fn law_installed_packages_are_marked(
    colors: PkgColors,
    words: PkgWords,
    installed: Option<String>,
    version: Seq<char>,
)
    ensures
        ({
            let mark = installed_mark_of(colors, words, same_version(installed, version));
            &&& installed is None ==> mark.len() == 0
            &&& installed is Some && installed->0@ == version ==> mark == seq![' '] + painted(
                colors.installed,
                words.installed@,
            )
            &&& installed is Some && installed->0@ != version ==> mark == seq![' '] + painted(
                colors.installed,
                words.installed_other@,
            )
        }),
{
    reveal_strlit(" ");
    assert(" "@ =~= seq![' ']);
}

/// No repository besides these is one of Arch Linux's own.
pub proof fn law_no_other_repository_has_pages(name: Seq<char>)
    requires
        arch_repo(name),
    ensures
        name == "core"@ || name == "extra"@ || name == "community"@ || name == "testing"@ || name
            == "core-testing"@ || name == "extra-testing"@ || name == "community-testing"@ || name
            == "multilib-testing"@,
{
}

} // verus!
