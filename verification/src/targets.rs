//! Sorting targets and packages into those of the repositories and those of the
//! AUR.

use crate::text::{lemma_texts_push, list_has, same, texts};
use vstd::prelude::*;

verus! {

/// Which kinds of packages an operation deals with.
#[derive(Debug, Clone, Copy, PartialEq, Eq, Structural)]
pub struct Modes {
    pub repo: bool,
    pub aur: bool,
    pub pkgbuild: bool,
}

/// A target, and whether the repositories know what it names: by itself, or for
/// an installation also as something one of their packages provides or as a
/// group.
#[derive(Debug)]
pub struct Target {
    pub repo: Option<String>,
    pub pkg: String,
    pub known: bool,
}

/// The names of the repositories.
#[derive(Debug)]
pub struct RepoNames {
    /// The repositories of packages.
    pub sync: Vec<String>,
    /// The repositories of PKGBUILDs.
    pub pkgbuild: Vec<String>,
    /// The name the AUR goes by.
    pub aur: String,
}

/// Whether a target is one for the repositories when packages are installed.
/// With a repository named it is, unless that stands for PKGBUILDs or the AUR.
pub open spec fn installs_from_repo(modes: Modes, names: RepoNames, t: Target) -> bool {
    if !modes.repo {
        false
    } else if !modes.aur && !modes.pkgbuild {
        true
    } else {
        match t.repo {
            Some(repo) => texts(names.sync@).contains(repo@) || !(texts(
                names.pkgbuild@,
            ).contains(repo@) || repo@ == names.aur@ || repo@ == "."@),
            None => t.known,
        }
    }
}

/// Whether a target is one for the repositories when packages are looked up.
pub open spec fn looks_in_repo(modes: Modes, names: RepoNames, t: Target) -> bool {
    if !modes.repo {
        false
    } else if !modes.aur && !modes.pkgbuild {
        true
    } else {
        match t.repo {
            Some(repo) => texts(names.sync@).contains(repo@),
            None => t.known,
        }
    }
}

fn is_repo_install(modes: Modes, names: &RepoNames, t: &Target) -> (r: bool)
    ensures
        r == installs_from_repo(modes, *names, *t),
{
    if !modes.repo {
        return false;
    }
    if !modes.aur && !modes.pkgbuild {
        return true;
    }
    match &t.repo {
        Some(repo) => {
            let repo = repo.as_str();
            if list_has(names.sync.as_slice(), repo) {
                true
            } else if list_has(names.pkgbuild.as_slice(), repo) || same(repo, names.aur.as_str())
                || same(repo, ".") {
                false
            } else {
                true
            }
        },
        None => t.known,
    }
}

fn is_repo_lookup(modes: Modes, names: &RepoNames, t: &Target) -> (r: bool)
    ensures
        r == looks_in_repo(modes, *names, *t),
{
    if !modes.repo {
        return false;
    }
    if !modes.aur && !modes.pkgbuild {
        return true;
    }
    match &t.repo {
        Some(repo) => list_has(names.sync.as_slice(), repo.as_str()),
        None => t.known,
    }
}

/// Parts targets to be installed into those for the repositories and those for
/// the AUR and the PKGBUILDs, each in order.
pub fn split_repo_aur_targets(modes: Modes, names: &RepoNames, targets: Vec<Target>) -> (r: (
    Vec<Target>,
    Vec<Target>,
))
    ensures
        r.0@ == targets@.filter(|t: Target| installs_from_repo(modes, *names, t)),
        r.1@ == targets@.filter(|t: Target| !installs_from_repo(modes, *names, t)),
{
    let ghost all = targets@;
    let ghost yes = |t: Target| installs_from_repo(modes, *names, t);
    let ghost no = |t: Target| !installs_from_repo(modes, *names, t);
    let ghost mut done: int = 0;
    let mut rest = targets;
    let mut local: Vec<Target> = Vec::new();
    let mut aur: Vec<Target> = Vec::new();
    proof {
        assert(all.take(0) =~= Seq::<Target>::empty());
        assert(all.skip(0) =~= all);
        reveal(Seq::filter);
    }
    while rest.len() > 0
        invariant
            0 <= done <= all.len(),
            yes == (|t: Target| installs_from_repo(modes, *names, t)),
            no == (|t: Target| !installs_from_repo(modes, *names, t)),
            rest@ == all.skip(done),
            local@ == all.take(done).filter(yes),
            aur@ == all.take(done).filter(no),
        decreases rest@.len(),
    {
        let ghost before = rest@;
        let t = rest.remove(0);
        proof {
            assert(before[0] == all[done]);
            assert(rest@ =~= all.skip(done + 1));
            assert(all.take(done + 1) =~= all.take(done).push(t));
            all.take(done).lemma_filter_push(t, yes);
            all.take(done).lemma_filter_push(t, no);
            done = done + 1;
        }
        if is_repo_install(modes, names, &t) {
            local.push(t);
        } else {
            aur.push(t);
        }
    }
    assert(all.take(done) =~= all);
    (local, aur)
}

/// Parts targets to be looked up into those for the repositories and those for
/// the AUR and the PKGBUILDs, each in order.
pub fn split_repo_aur_info(modes: Modes, names: &RepoNames, targets: Vec<Target>) -> (r: (
    Vec<Target>,
    Vec<Target>,
))
    ensures
        r.0@ == targets@.filter(|t: Target| looks_in_repo(modes, *names, t)),
        r.1@ == targets@.filter(|t: Target| !looks_in_repo(modes, *names, t)),
{
    let ghost all = targets@;
    let ghost yes = |t: Target| looks_in_repo(modes, *names, t);
    let ghost no = |t: Target| !looks_in_repo(modes, *names, t);
    let ghost mut done: int = 0;
    let mut rest = targets;
    let mut local: Vec<Target> = Vec::new();
    let mut aur: Vec<Target> = Vec::new();
    proof {
        assert(all.take(0) =~= Seq::<Target>::empty());
        assert(all.skip(0) =~= all);
        reveal(Seq::filter);
    }
    while rest.len() > 0
        invariant
            0 <= done <= all.len(),
            yes == (|t: Target| looks_in_repo(modes, *names, t)),
            no == (|t: Target| !looks_in_repo(modes, *names, t)),
            rest@ == all.skip(done),
            local@ == all.take(done).filter(yes),
            aur@ == all.take(done).filter(no),
        decreases rest@.len(),
    {
        let ghost before = rest@;
        let t = rest.remove(0);
        proof {
            assert(before[0] == all[done]);
            assert(rest@ =~= all.skip(done + 1));
            assert(all.take(done + 1) =~= all.take(done).push(t));
            all.take(done).lemma_filter_push(t, yes);
            all.take(done).lemma_filter_push(t, no);
            done = done + 1;
        }
        if is_repo_lookup(modes, names, &t) {
            local.push(t);
        } else {
            aur.push(t);
        }
    }
    assert(all.take(done) =~= all);
    (local, aur)
}

/// Without the AUR and the PKGBUILDs every target is one for the repositories,
/// and without the repositories none is.
pub proof fn law_a_single_mode_takes_every_target(modes: Modes, names: RepoNames, t: Target)
    ensures
        modes.repo && !modes.aur && !modes.pkgbuild ==> installs_from_repo(modes, names, t)
            && looks_in_repo(modes, names, t),
        !modes.repo ==> !installs_from_repo(modes, names, t) && !looks_in_repo(modes, names, t),
{
}

/// A package, and whether the repositories and the local repositories for AUR
/// packages have it.
#[derive(Debug)]
pub struct Known {
    pub name: String,
    pub in_repo: bool,
    pub in_aur: bool,
}

/// Whether a package counts as one of the AUR: it is in a local repository for
/// them, or there are no such repositories, and no other repository has it.
pub open spec fn counts_as_aur(local_repos: bool, pkg: Known) -> bool {
    !pkg.in_repo && (!local_repos || pkg.in_aur)
}

/// The names of packages that meet a condition.
pub open spec fn names_where(pkgs: Seq<Known>, keep: spec_fn(Known) -> bool) -> Seq<Seq<char>> {
    pkgs.filter(keep).map_values(|p: Known| p.name@)
}

proof fn lemma_names_push(pkgs: Seq<Known>, pkg: Known, keep: spec_fn(Known) -> bool)
    ensures
        names_where(pkgs.push(pkg), keep) == (if keep(pkg) {
            names_where(pkgs, keep).push(pkg.name@)
        } else {
            names_where(pkgs, keep)
        }),
{
    pkgs.lemma_filter_push(pkg, keep);
    if keep(pkg) {
        assert(names_where(pkgs.push(pkg), keep) =~= names_where(pkgs, keep).push(pkg.name@));
    }
}

/// Parts packages into those of the repositories and those of the AUR, each in
/// order. With local repositories, a package that is in none is in neither part.
pub fn split_repo_aur_pkgs(local_repos: bool, pkgs: &Vec<Known>) -> (r: (Vec<String>, Vec<String>))
    ensures
        texts(r.0@) == names_where(pkgs@, |p: Known| p.in_repo),
        texts(r.1@) == names_where(pkgs@, |p: Known| counts_as_aur(local_repos, p)),
{
    let ghost yes = |p: Known| p.in_repo;
    let ghost no = |p: Known| counts_as_aur(local_repos, p);
    let mut repo: Vec<String> = Vec::new();
    let mut aur: Vec<String> = Vec::new();
    let mut i: usize = 0;
    proof {
        assert(pkgs@.take(0) =~= Seq::<Known>::empty());
        reveal(Seq::filter);
        assert(texts(repo@) =~= names_where(pkgs@.take(0), yes));
        assert(texts(aur@) =~= names_where(pkgs@.take(0), no));
    }
    while i < pkgs.len()
        invariant
            i <= pkgs@.len(),
            yes == (|p: Known| p.in_repo),
            no == (|p: Known| counts_as_aur(local_repos, p)),
            texts(repo@) == names_where(pkgs@.take(i as int), yes),
            texts(aur@) == names_where(pkgs@.take(i as int), no),
        decreases pkgs@.len() - i,
    {
        let pkg = &pkgs[i];
        proof {
            assert(pkgs@.take(i + 1) =~= pkgs@.take(i as int).push(*pkg));
            lemma_names_push(pkgs@.take(i as int), *pkg, yes);
            lemma_names_push(pkgs@.take(i as int), *pkg, no);
            lemma_texts_push(repo@, pkg.name);
            lemma_texts_push(aur@, pkg.name);
        }
        if pkg.in_repo {
            repo.push(pkg.name.clone());
        } else if !local_repos || pkg.in_aur {
            aur.push(pkg.name.clone());
        }
        i += 1;
    }
    assert(pkgs@.take(i as int) =~= pkgs@);
    (repo, aur)
}

/// A repository: whether it is a local one for AUR packages, and the names of
/// what it holds.
#[derive(Debug)]
pub struct Database {
    pub local: bool,
    pub pkgs: Vec<String>,
}

/// What the repositories of one kind hold, one repository after the other.
pub open spec fn contents(dbs: Seq<Database>, local: bool) -> Seq<Seq<char>>
    decreases dbs.len(),
{
    if dbs.len() == 0 {
        Seq::empty()
    } else {
        let before = contents(dbs.drop_last(), local);
        if dbs.last().local == local {
            before + texts(dbs.last().pkgs@)
        } else {
            before
        }
    }
}

/// Adds copies of texts to a list.
fn append_copies(list: &mut Vec<String>, more: &Vec<String>)
    ensures
        texts(final(list)@) == texts(old(list)@) + texts(more@),
{
    let ghost before = texts(list@);
    let mut i: usize = 0;
    assert(texts(list@) =~= before + texts(more@).take(0));
    while i < more.len()
        invariant
            i <= more@.len(),
            texts(list@) == before + texts(more@).take(i as int),
        decreases more@.len() - i,
    {
        proof {
            lemma_texts_push(list@, more@[i as int]);
            assert(texts(more@).take(i + 1) =~= texts(more@).take(i as int).push(
                more@[i as int]@,
            ));
            assert(before + texts(more@).take(i + 1) =~= (before + texts(more@).take(
                i as int,
            )).push(more@[i as int]@));
        }
        list.push(more[i].clone());
        i += 1;
    }
    assert(texts(more@).take(i as int) =~= texts(more@));
}

/// The packages of the repositories and those of the AUR. With local
/// repositories for AUR packages these are what the repositories of either kind
/// hold. Without, they are the installed packages that a repository has, and the
/// other installed ones.
pub fn repo_aur_pkgs(local_repos: bool, dbs: &Vec<Database>, installed: &Vec<Known>) -> (r: (
    Vec<String>,
    Vec<String>,
))
    ensures
        local_repos ==> texts(r.0@) == contents(dbs@, false) && texts(r.1@) == contents(dbs@, true),
        !local_repos ==> texts(r.0@) == names_where(installed@, |p: Known| p.in_repo) && texts(r.1@)
            == names_where(installed@, |p: Known| !p.in_repo),
{
    if !local_repos {
        proof {
            let a = |p: Known| counts_as_aur(false, p);
            let b = |p: Known| !p.in_repo;
            assert(a =~= b);
        }
        return split_repo_aur_pkgs(false, installed);
    }
    let mut repo: Vec<String> = Vec::new();
    let mut aur: Vec<String> = Vec::new();
    let mut i: usize = 0;
    proof {
        assert(texts(repo@) =~= contents(dbs@.take(0), false));
        assert(texts(aur@) =~= contents(dbs@.take(0), true));
    }
    while i < dbs.len()
        invariant
            i <= dbs@.len(),
            texts(repo@) == contents(dbs@.take(i as int), false),
            texts(aur@) == contents(dbs@.take(i as int), true),
        decreases dbs@.len() - i,
    {
        assert(dbs@.take(i + 1).drop_last() =~= dbs@.take(i as int));
        if dbs[i].local {
            append_copies(&mut aur, &dbs[i].pkgs);
        } else {
            append_copies(&mut repo, &dbs[i].pkgs);
        }
        i += 1;
    }
    assert(dbs@.take(i as int) =~= dbs@);
    (repo, aur)
}

/// Parting a list by a condition loses nothing and repeats nothing.
pub proof fn law_parting_keeps_every_entry<T>(list: Seq<T>, keep: spec_fn(T) -> bool)
    ensures
        list.filter(keep).to_multiset().add(list.filter(|x: T| !keep(x)).to_multiset())
            == list.to_multiset(),
    decreases list.len(),
{
    broadcast use vstd::seq_lib::group_to_multiset_ensures;

    let other = |x: T| !keep(x);
    reveal(Seq::filter);
    if list.len() == 0 {
        assert(list.filter(keep) =~= list);
        assert(list.filter(other) =~= list);
        assert(list.to_multiset().add(list.to_multiset()) =~= list.to_multiset());
    } else {
        let rest = list.drop_last();
        let x = list.last();
        law_parting_keeps_every_entry(rest, keep);
        assert(rest.push(x) =~= list);
        rest.lemma_filter_push(x, keep);
        rest.lemma_filter_push(x, other);
        let a = rest.filter(keep).to_multiset();
        let b = rest.filter(other).to_multiset();
        assert(a.insert(x).add(b) =~= a.add(b).insert(x));
        assert(a.add(b.insert(x)) =~= a.add(b).insert(x));
    }
}

/// Where all kinds of packages are dealt with, a named repository decides: a target
/// in any of the repositories of packages goes there, one in any repository of
/// PKGBUILDs, in the AUR or in the current directory does not, and any other name is
/// left to the repositories for an installation and not looked up in them. Without a
/// name, what the repositories know decides.
pub proof fn law_a_named_repository_decides(modes: Modes, names: RepoNames, t: Target)
    requires
        modes.repo,
        modes.aur || modes.pkgbuild,
    ensures
        t.repo is None ==> installs_from_repo(modes, names, t) == t.known && looks_in_repo(
            modes,
            names,
            t,
        ) == t.known,
        forall|i: int|
            0 <= i < names.sync@.len() && t.repo is Some && (#[trigger] names.sync@[i])@
                == t.repo->0@ ==> installs_from_repo(modes, names, t) && looks_in_repo(
                modes,
                names,
                t,
            ),
        t.repo is Some && (forall|i: int|
            0 <= i < names.sync@.len() ==> (#[trigger] names.sync@[i])@ != t.repo->0@) ==> {
            &&& !looks_in_repo(modes, names, t)
            &&& t.repo->0@ == names.aur@ ==> !installs_from_repo(modes, names, t)
            &&& t.repo->0@ == seq!['.'] ==> !installs_from_repo(modes, names, t)
            &&& forall|i: int|
                0 <= i < names.pkgbuild@.len() && (#[trigger] names.pkgbuild@[i])@ == t.repo->0@
                    ==> !installs_from_repo(modes, names, t)
            &&& (forall|i: int|
                0 <= i < names.pkgbuild@.len() ==> (#[trigger] names.pkgbuild@[i])@
                    != t.repo->0@) && t.repo->0@ != names.aur@ && t.repo->0@ != seq!['.']
                ==> installs_from_repo(modes, names, t)
        },
{
    reveal_strlit(".");
    assert("."@ =~= seq!['.']);
    let sync = texts(names.sync@);
    let pkgbuild = texts(names.pkgbuild@);
    if let Some(repo) = t.repo {
        assert forall|i: int|
            0 <= i < names.sync@.len() && (#[trigger] names.sync@[i])@
                == repo@ implies sync.contains(repo@) by {
            assert(sync[i] == repo@);
        }
        assert forall|i: int|
            0 <= i < names.pkgbuild@.len() && (#[trigger] names.pkgbuild@[i])@
                == repo@ implies pkgbuild.contains(repo@) by {
            assert(pkgbuild[i] == repo@);
        }
        assert forall|i: int| 0 <= i < sync.len() implies #[trigger] sync[i]
            == names.sync@[i]@ by {
        }
        assert forall|i: int| 0 <= i < pkgbuild.len() implies #[trigger] pkgbuild[i]
            == names.pkgbuild@[i]@ by {
        }
    }
}

/// A package that a repository has is none of the AUR's; one that no repository has
/// is, unless there are local repositories for such packages and they lack it too.
pub proof fn law_what_no_repository_has_is_from_the_aur(local_repos: bool, pkg: Known)
    ensures
        pkg.in_repo ==> !counts_as_aur(local_repos, pkg),
        !pkg.in_repo && !local_repos ==> counts_as_aur(local_repos, pkg),
        !pkg.in_repo && local_repos ==> counts_as_aur(local_repos, pkg) == pkg.in_aur,
{
}

/// The names of packages that meet a condition are all of them, in order: `at` are
/// the positions of these packages.
pub proof fn law_every_name_that_meets_a_condition_is_there(
    pkgs: Seq<Known>,
    keep: spec_fn(Known) -> bool,
) -> (at: Seq<int>)
    ensures
        names_where(pkgs, keep).len() == at.len(),
        forall|i: int|
            0 <= i < at.len() ==> 0 <= #[trigger] at[i] < pkgs.len() && keep(pkgs[at[i]])
                && names_where(pkgs, keep)[i] == pkgs[at[i]].name@,
        forall|i: int, j: int| 0 <= i < j < at.len() ==> #[trigger] at[i] < #[trigger] at[j],
        forall|k: int| 0 <= k < pkgs.len() && keep(pkgs[k]) ==> #[trigger] at.contains(k),
    decreases pkgs.len(),
{
    if pkgs.len() == 0 {
        reveal(Seq::filter);
        Seq::empty()
    } else {
        let prev = pkgs.drop_last();
        let last = pkgs.last();
        let before = law_every_name_that_meets_a_condition_is_there(prev, keep);
        lemma_names_push(prev, last, keep);
        assert(prev.push(last) =~= pkgs);
        let n = pkgs.len() - 1;
        let at = if keep(last) {
            before.push(n)
        } else {
            before
        };
        assert forall|i: int| 0 <= i < at.len() implies 0 <= #[trigger] at[i] < pkgs.len() && keep(
            pkgs[at[i]],
        ) && names_where(pkgs, keep)[i] == pkgs[at[i]].name@ by {
            if i < before.len() {
                assert(at[i] == before[i]);
                assert(prev[before[i]] == pkgs[before[i]]);
            }
        }
        assert forall|i: int, j: int| 0 <= i < j < at.len() implies #[trigger] at[i]
            < #[trigger] at[j] by {
            assert(at[i] == before[i]);
            if j < before.len() {
                assert(at[j] == before[j]);
            }
        }
        assert forall|k: int|
            0 <= k < pkgs.len() && keep(pkgs[k]) implies #[trigger] at.contains(k) by {
            if k < n {
                assert(prev[k] == pkgs[k]);
                assert(before.contains(k));
                let i = choose|i: int| 0 <= i < before.len() && before[i] == k;
                assert(at[i] == k);
            } else {
                assert(at[before.len() as int] == k);
            }
        }
        at
    }
}

/// What the repositories of a kind hold is what each of them holds, one after the
/// other: a repository of the kind adds all its packages behind those before it, and
/// one of the other kind adds nothing.
pub proof fn law_each_repository_adds_its_packages(
    a: Seq<Database>,
    b: Seq<Database>,
    db: Database,
    local: bool,
)
    ensures
        contents(a + b, local) == contents(a, local) + contents(b, local),
        contents(seq![db], local) == (if db.local == local {
            texts(db.pkgs@)
        } else {
            Seq::<Seq<char>>::empty()
        }),
    decreases b.len(),
{
    let one = seq![db];
    let none = Seq::<Seq<char>>::empty();
    assert(one.drop_last() =~= Seq::<Database>::empty());
    assert(contents(one.drop_last(), local) =~= none);
    assert(none + texts(db.pkgs@) =~= texts(db.pkgs@));
    if b.len() == 0 {
        assert(a + b =~= a);
        assert(contents(a, local) + contents(b, local) =~= contents(a, local));
    } else {
        law_each_repository_adds_its_packages(a, b.drop_last(), db, local);
        assert((a + b).drop_last() =~= a + b.drop_last());
        assert((a + b).last() == b.last());
        let more = texts(b.last().pkgs@);
        assert(contents(a, local) + (contents(b.drop_last(), local) + more) =~= contents(a, local)
            + contents(b.drop_last(), local) + more);
    }
}

} // verus!
