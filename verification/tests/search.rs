use flate2::write::GzEncoder;
use flate2::Compression;
use pwa::deps::{is_sound, unneeded_pkgs, Installed};
use pwa::packages::{
    arch_page, aur_marks, aur_page, aur_stats, column_width, custom_marks, desc_words, exact_first,
    is_arch_repo, listing, menu_words, number_column, pkg_base_or_name, pkg_name, pkg_repo,
    pkg_target, repo_marks, repo_stats, title_with_stats, AnyPkg, AurPkg, CustomPkg, PkgColors,
    PkgWords, RepoPkg,
};
use pwa::prompt::YesNoEdit;
use pwa::reply::{Candidate, Selection};
use pwa::search::{
    aur_targets, exit_code, gather, limit_results, lowercase_targets, menu_step, nothing_to_do,
    search_aur, search_aur_regex, search_pkgbuilds, search_repos, search_target, searches,
    show_order, Attempt, Entry, MenuStep, SearchBy, SearchError, SortBy,
};
use pwa::session::{
    ai_step, dedup_candidates, next_request, offer_line, resolve_candidate, selected_names,
    shown_repo, take_offers, AiMenu, AiStep, Lookup, Offer,
};
use pwa::style::{TextColor, TextStyle};
use pwa::targets::{
    repo_aur_pkgs, split_repo_aur_info, split_repo_aur_pkgs, split_repo_aur_targets, Database,
    Known, Modes, RepoNames, Target,
};
use std::io::Write;

fn strings(list: &[&str]) -> Vec<String> {
    list.iter().map(|s| s.to_string()).collect()
}

fn repo_pkg(repo: &str, name: &str) -> RepoPkg {
    RepoPkg {
        repo: repo.to_string(),
        name: name.to_string(),
        version: "1.0-1".to_string(),
        desc: Some("a  thing".to_string()),
        url: None,
        arch: Some("x86_64".to_string()),
        groups: Vec::new(),
        download_size: 15,
        installed_size: 1500,
        installed: None,
    }
}

fn aur_pkg(name: &str) -> AurPkg {
    AurPkg {
        name: name.to_string(),
        base: name.to_string(),
        version: "2.0-1".to_string(),
        desc: Some("Made by hand".to_string()),
        url: None,
        votes: 3,
        popularity: "0.12".to_string(),
        popularity_rank: 12,
        id: 7,
        first_submitted: 1,
        last_modified: 2,
        out_of_date: None,
        maintained: true,
        installed: None,
    }
}

fn custom_pkg(repo: &str, name: &str) -> CustomPkg {
    CustomPkg {
        repo: repo.to_string(),
        base: format!("{}-base", name),
        name: name.to_string(),
        version: "3.0-1".to_string(),
        desc: None,
        url: None,
        provides: Vec::new(),
        groups: Vec::new(),
        installed: None,
    }
}

fn plain() -> TextStyle {
    TextStyle { color: TextColor::Plain, bold: false }
}

fn colors() -> PkgColors {
    PkgColors {
        name: plain(),
        version: plain(),
        stats: plain(),
        out_of_date: plain(),
        installed: plain(),
        orphaned: plain(),
        number: plain(),
    }
}

fn pkg_words() -> PkgWords {
    PkgWords {
        out_of_date: "[out-of-date: 2024-01-01]".to_string(),
        installed: "[installed]".to_string(),
        installed_other: "[installed: 1.9-1]".to_string(),
        orphaned: "[orphaned]".to_string(),
    }
}

#[test]
fn packages_are_targets() {
    let repo = AnyPkg::RepoPkg(repo_pkg("extra", "mpv"));
    let aur = AnyPkg::AurPkg(aur_pkg("mpv-git"));
    let custom = AnyPkg::Custom(custom_pkg("mine", "tool"));
    assert_eq!(pkg_target("__aur__", &repo), "extra/mpv");
    assert_eq!(pkg_target("__aur__", &aur), "__aur__/mpv-git");
    assert_eq!(pkg_target("__aur__", &custom), "mine/tool");
    assert_eq!(pkg_name(&custom), "tool");
    assert_eq!(pkg_repo("aur", &aur), "aur");
    assert_eq!(pkg_base_or_name(Some("base"), "name"), "base");
    assert_eq!(pkg_base_or_name(None, "name"), "name");
    let all = vec![custom, aur, repo];
    assert_eq!(menu_words("extra", &all), vec!["extra", "mine", "mpv", "mpv-git", "tool"]);
}

#[test]
fn arch_repositories_are_known() {
    for name in [
        "testing", "community-testing", "core", "extra", "community", "core-testing",
        "extra-testing", "multilib-testing",
    ] {
        assert!(is_arch_repo(name));
    }
    assert!(!is_arch_repo("multilib"));
    assert!(!is_arch_repo("aur"));
    assert_eq!(arch_page(&repo_pkg("core", "a")).as_deref(), Some("packages/core/x86_64/a/"));
    let mut any = repo_pkg("extra", "a");
    any.arch = None;
    assert_eq!(arch_page(&any).as_deref(), Some("packages/extra/any/a/"));
    assert_eq!(arch_page(&repo_pkg("chaotic", "a")), None);
    assert_eq!(aur_page("a"), "packages/a");
}

#[test]
fn packages_are_marked() {
    let mut aur = aur_pkg("a");
    assert_eq!(aur_marks(&colors(), &pkg_words(), &aur), "");
    aur.out_of_date = Some(1);
    aur.installed = Some("1.9-1".to_string());
    aur.maintained = false;
    assert_eq!(
        aur_marks(&colors(), &pkg_words(), &aur),
        " [out-of-date: 2024-01-01] [installed: 1.9-1] [orphaned]"
    );
    aur.installed = Some("2.0-1".to_string());
    aur.maintained = true;
    aur.out_of_date = None;
    assert_eq!(aur_marks(&colors(), &pkg_words(), &aur), " [installed]");

    let mut repo = repo_pkg("extra", "b");
    assert_eq!(repo_marks(&colors(), &pkg_words(), &repo), "");
    repo.installed = Some(("1.9-1".to_string(), false));
    repo.groups = strings(&["x", "y"]);
    assert_eq!(repo_marks(&colors(), &pkg_words(), &repo), " [installed: 1.9-1] (x y)");
    let mut green = colors();
    green.orphaned = TextStyle { color: TextColor::Green, bold: false };
    repo.installed = Some(("1.0-1".to_string(), true));
    assert_eq!(
        repo_marks(&green, &pkg_words(), &repo),
        " [installed] \x1b[32m(\x1b[0m\x1b[32mx\x1b[0m \x1b[32my\x1b[0m\x1b[32m)\x1b[0m"
    );

    let mut custom = custom_pkg("mine", "c");
    assert_eq!(custom_marks(&colors(), &pkg_words(), &custom), "");
    custom.installed = Some("3.0-1".to_string());
    assert_eq!(custom_marks(&colors(), &pkg_words(), &custom), " [installed]");
}

#[test]
fn packages_have_statistics() {
    assert_eq!(repo_stats(&repo_pkg("core", "a")), "15 B 1.46 KiB");
    assert_eq!(aur_stats(&aur_pkg("a")), "+3 ~0.12");
    assert_eq!(
        title_with_stats(&colors(), "core", "a", "1-1", "15 B 20 B"),
        "core/a 1-1 [15 B 20 B]"
    );
    assert_eq!(desc_words(Some(" a  thing "), "None"), vec!["a", "thing"]);
    assert_eq!(desc_words(None, "None"), vec!["None"]);
    assert_eq!(number_column(7, 3), "  7");
    assert_eq!(number_column(1234, 3), "1234");
    assert_eq!(column_width(9), 1);
    assert_eq!(column_width(10), 2);
}

#[test]
fn the_model_sees_a_numbered_list() {
    let mut installed = repo_pkg("extra", "mpv");
    installed.installed = Some(("1.0-1".to_string(), true));
    let all = vec![
        AnyPkg::RepoPkg(installed),
        AnyPkg::AurPkg(aur_pkg("mpv-git")),
        AnyPkg::Custom(custom_pkg("mine", "tool")),
    ];
    assert_eq!(
        listing(&all),
        "1. extra/mpv 1.0-1 installed\n   a  thing\n\
         2. aur/mpv-git 2.0-1 votes=3 popularity=0.12\n   Made by hand\n\
         3. mine/tool 3.0-1\n   \n"
    );
}

#[test]
fn exact_matches_come_first() {
    let all = ["a", "b", "c", "b", "d"].iter().map(|n| AnyPkg::AurPkg(aur_pkg(n))).collect();
    let sorted = exact_first(all, &strings(&["d", "b"]));
    let names: Vec<_> = sorted.iter().map(pkg_name).collect();
    assert_eq!(names, vec!["b", "b", "d", "a", "c"]);
}

#[test]
fn results_are_shown_in_either_direction() {
    assert_eq!(
        show_order(true, 2, 1, 2),
        vec![Entry::Repo(0), Entry::Repo(1), Entry::Custom(0), Entry::Aur(0), Entry::Aur(1)]
    );
    assert_eq!(
        show_order(false, 2, 1, 2),
        vec![Entry::Aur(1), Entry::Aur(0), Entry::Custom(0), Entry::Repo(1), Entry::Repo(0)]
    );
    assert!(show_order(false, 0, 0, 0).is_empty());
    assert_eq!(exit_code(0, 0), 1);
    assert_eq!(exit_code(1, 0), 0);
    assert_eq!(exit_code(0, 1), 0);

    let all = gather(vec![repo_pkg("core", "a")], vec![custom_pkg("m", "b")], vec![aur_pkg("c")]);
    assert_eq!(all.iter().map(pkg_name).collect::<Vec<_>>(), vec!["a", "b", "c"]);
    assert!(nothing_to_do(3, &Vec::new()));
    assert!(!nothing_to_do(0, &Vec::new()));
    assert!(!nothing_to_do(3, &strings(&["a"])));
}

#[test]
fn selections_at_the_menu() {
    let all: Vec<_> = ["a", "b", "c"].iter().map(|n| AnyPkg::AurPkg(aur_pkg(n))).collect();
    let step = |ai: bool, input: &str, top: bool| match menu_step(ai, input, "aur", &all, top) {
        MenuStep::Nothing => "nothing".to_string(),
        MenuStep::Ask(query) => format!("ask {}", query),
        MenuStep::Targets(list) => list.join(" "),
    };
    assert_eq!(step(true, " \n", true), "nothing");
    assert_eq!(step(true, "1 3", true), "aur/a aur/c");
    assert_eq!(step(true, "1 3", false), "aur/c aur/a");
    assert_eq!(step(true, "^2", true), "aur/a aur/c");
    assert_eq!(step(true, " the small one ", true), "ask the small one");
    // Without the ai everything is for the menu.
    assert_eq!(step(false, "the small one", true), "");
    // A listed name is for the menu.
    assert_eq!(step(true, "^a", true), "aur/a aur/b aur/c");
}

#[test]
fn pkgbuilds_are_matched_by_pattern() {
    let all = || {
        let mut described = custom_pkg("m", "x");
        described.desc = Some("video player".to_string());
        let mut provider = custom_pkg("m", "y");
        provider.provides = strings(&["libfoo=1"]);
        let mut grouped = custom_pkg("m", "z");
        grouped.groups = strings(&["games"]);
        vec![described, provider, grouped]
    };
    let names = |targets: &[&str]| {
        search_pkgbuilds(true, all(), &strings(targets))
            .map(|v| v.into_iter().map(|p| p.name).collect::<Vec<_>>().join(" "))
    };
    assert_eq!(names(&[]).unwrap(), "x y z");
    assert_eq!(names(&["pla.er"]).unwrap(), "x");
    assert_eq!(names(&["libfoo", "^games$"]).unwrap(), "y z");
    assert_eq!(names(&["z-base"]).unwrap(), "z");
    assert_eq!(names(&["^y$"]).unwrap(), "y");
    assert_eq!(names(&["("]).unwrap_err(), SearchError::BadPattern);
    assert!(search_pkgbuilds(false, all(), &strings(&["("])).unwrap().is_empty());
}

fn packed(text: &str) -> Vec<u8> {
    let mut encoder = GzEncoder::new(Vec::new(), Compression::default());
    encoder.write_all(text.as_bytes()).unwrap();
    encoder.finish().unwrap()
}

#[test]
fn the_packed_list_is_matched_by_pattern() {
    let data = packed("mpv\nmpv-git\nvlc\n");
    assert_eq!(search_aur_regex(&data, &strings(&["^mpv"])).unwrap(), strings(&["mpv", "mpv-git"]));
    assert!(search_aur_regex(&data, &strings(&["x"])).unwrap().is_empty());
    assert_eq!(
        search_aur_regex(&data, &strings(&["["])).unwrap_err(),
        SearchError::BadPattern
    );
    assert_eq!(
        search_aur_regex(b"not packed", &strings(&["a"])).unwrap_err(),
        SearchError::Undecodable
    );
    let many = packed(&"a\n".repeat(2000));
    assert_eq!(search_aur_regex(&many, &strings(&["a"])).unwrap_err(), SearchError::TooMany);
    let fewer = packed(&"a\n".repeat(1999));
    assert_eq!(search_aur_regex(&fewer, &strings(&["a"])).unwrap().len(), 1999);
}

#[test]
fn results_are_limited() {
    assert_eq!(search_repos(vec![vec![1, 2], vec![], vec![3]], 0), vec![1, 2, 3]);
    assert_eq!(search_repos(vec![vec![1, 2], vec![3]], 2), vec![1, 2]);
    let mut list = vec![1, 2, 3];
    limit_results(&mut list, 5);
    assert_eq!(list, vec![1, 2, 3]);
    assert!(searches(&strings(&["a"]), true));
    assert!(!searches(&strings(&["a"]), false));
    assert!(!searches(&Vec::new(), true));
}

#[test]
fn targets_are_tried_until_one_is_answered() {
    assert_eq!(aur_targets(&strings(&["Foo", "a", "BB", "日"])), strings(&["a", "bb", "foo", "日"]));
    let mut targets = strings(&["a", "bb", "ccc"]);
    assert_eq!(search_target(&mut targets, 0, Attempt::Refused), Some(1));
    assert_eq!(search_target(&mut targets, 1, Attempt::Found), None);
    assert_eq!(targets, strings(&["a", "ccc"]));
    assert_eq!(search_target(&mut targets, 0, Attempt::Failed), None);
    assert_eq!(search_target(&mut targets, 1, Attempt::Refused), None);
    assert_eq!(targets, strings(&["a", "ccc"]));
}

#[test]
fn the_other_targets_filter_the_results() {
    let all = || {
        let mut plain = aur_pkg("Foo-bar");
        plain.desc = None;
        vec![plain, aur_pkg("foo"), aur_pkg("hand")]
    };
    let names = |by: SearchBy, targets: &[&str]| {
        search_aur(by, SortBy::Unsorted, 0, &strings(targets), all())
            .into_iter()
            .map(|p| p.name)
            .collect::<Vec<_>>()
            .join(" ")
    };
    assert_eq!(names(SearchBy::NameDesc, &[]), "Foo-bar foo hand");
    assert_eq!(names(SearchBy::NameDesc, &["foo"]), "Foo-bar foo");
    assert_eq!(names(SearchBy::NameDesc, &["hand"]), "foo hand");
    assert_eq!(names(SearchBy::Name, &["hand"]), "hand");
    assert_eq!(names(SearchBy::Name, &["foo", "bar"]), "Foo-bar");
    assert_eq!(names(SearchBy::Other, &["nothing"]), "Foo-bar foo hand");
}

#[test]
fn results_are_sorted_and_stay_in_order_otherwise() {
    let all = || {
        let mut a = aur_pkg("b");
        a.votes = 1;
        a.popularity_rank = 5;
        a.id = 3;
        a.base = "x".to_string();
        a.first_submitted = 9;
        a.last_modified = 1;
        let mut b = aur_pkg("a");
        b.votes = 5;
        b.popularity_rank = -2;
        b.id = 2;
        b.base = "x".to_string();
        b.first_submitted = 9;
        b.last_modified = 3;
        let mut c = aur_pkg("c");
        c.votes = 1;
        c.popularity_rank = 7;
        c.id = 1;
        c.base = "w".to_string();
        c.first_submitted = 8;
        c.last_modified = 2;
        vec![a, b, c]
    };
    let names = |by: SortBy, limit: usize| {
        search_aur(SearchBy::Other, by, limit, &Vec::new(), all())
            .into_iter()
            .map(|p| p.name)
            .collect::<Vec<_>>()
            .join(" ")
    };
    assert_eq!(names(SortBy::Votes, 0), "a b c");
    assert_eq!(names(SortBy::Popularity, 0), "c b a");
    assert_eq!(names(SortBy::Id, 0), "c a b");
    assert_eq!(names(SortBy::Name, 0), "a b c");
    assert_eq!(names(SortBy::Base, 0), "c b a");
    assert_eq!(names(SortBy::Submitted, 0), "c b a");
    assert_eq!(names(SortBy::Modified, 0), "b c a");
    assert_eq!(names(SortBy::Unsorted, 0), "b a c");
    assert_eq!(names(SortBy::Name, 2), "a b");
}

#[test]
fn the_ai_chooses_from_the_list() {
    let all: Vec<_> = ["a", "b", "c"].iter().map(|n| AnyPkg::AurPkg(aur_pkg(n))).collect();
    let mut menu = AiMenu::new(&all, "two of them");
    assert_eq!(menu.messages(3).len(), 2);
    let selection = Selection { indices: vec![1, 3], reason: "fine".to_string() };
    assert_eq!(selected_names(&all, &selection), "a c");
    menu.record(&selection);

    assert!(matches!(
        ai_step(YesNoEdit::Yes, "aur", &all, &selection),
        AiStep::Take(list) if list == strings(&["aur/a", "aur/c"])
    ));
    assert!(matches!(ai_step(YesNoEdit::Edit, "aur", &all, &selection), AiStep::Edit));
    assert!(matches!(ai_step(YesNoEdit::No, "aur", &all, &selection), AiStep::Stop(false)));
    let nothing = Selection::default();
    assert_eq!(selected_names(&all, &nothing), "");
    assert!(matches!(ai_step(YesNoEdit::Yes, "aur", &all, &nothing), AiStep::Stop(true)));

    assert!(!menu.follow_up(" \n"));
    assert_eq!(menu.query, "two of them");
    assert!(menu.follow_up(" only one \n"));
    let messages = menu.messages(3);
    assert_eq!(messages.len(), 4);
    assert_eq!(messages[1].content.as_deref(), Some("two of them"));
    assert_eq!(
        messages[2].content.as_deref(),
        Some("{\"indices\":[1,3],\"reason\":\"fine\"}")
    );
    assert!(messages[3].content.as_deref().unwrap().contains("Request: only one\n"));
}

fn candidate(name: &str, reason: &str) -> Candidate {
    Candidate { name: name.to_string(), reason: reason.to_string() }
}

#[test]
fn candidates_are_resolved_before_they_are_offered() {
    let list = vec![candidate("a", "1"), candidate("a", "2"), candidate("b", ""), candidate("a", "3")];
    let kept: Vec<_> = dedup_candidates(list).into_iter().map(|c| c.name + &c.reason).collect();
    assert_eq!(kept, strings(&["a1", "b", "a3"]));
    assert!(dedup_candidates(Vec::new()).is_empty());

    let lookup = |repo: &str, found: bool, desc: Option<&str>| Lookup {
        repo: repo.to_string(),
        found,
        desc: desc.map(str::to_string),
    };
    let lookups = vec![lookup("core", false, None), lookup("extra", true, Some("d"))];
    assert_eq!(
        resolve_candidate(&lookups, &Vec::new(), "aur", "a"),
        Some(("extra".to_string(), "d".to_string()))
    );
    let aur = vec![aur_pkg("a-git"), aur_pkg("a")];
    let none = vec![lookup("core", false, None)];
    assert_eq!(
        resolve_candidate(&none, &aur, "aur", "a"),
        Some(("aur".to_string(), "Made by hand".to_string()))
    );
    assert_eq!(resolve_candidate(&none, &aur, "aur", "made-up"), None);
    assert_eq!(next_request(" hi \n").as_deref(), Some("hi"));
    assert_eq!(next_request("\n"), None);
}

#[test]
fn offers_are_taken_by_number() {
    let offers: Vec<_> = ["a", "b", "c"]
        .iter()
        .map(|n| Offer {
            candidate: candidate(n, "why"),
            repo: "extra".to_string(),
            desc: "what".to_string(),
        })
        .collect();
    let taken = |no_confirm: bool, answer: &str| take_offers(no_confirm, answer, &offers).join(" ");
    assert_eq!(taken(true, ""), "extra/a extra/b extra/c");
    assert_eq!(taken(false, "2-3\n"), "extra/b extra/c");
    assert_eq!(taken(false, " \n"), "");
    assert_eq!(taken(false, "q\n"), "");
    assert_eq!(taken(false, "Q"), "");
    assert_eq!(shown_repo("__aur__", "__aur__"), "aur");
    assert_eq!(shown_repo("extra", "__aur__"), "extra");
    assert_eq!(offer_line(&colors(), 2, 2, "extra", &offers[1]), " 2 extra/b - what");
}

fn installed(name: &str, explicit: bool, depends: &[&[usize]], optdepends: &[&[usize]]) -> Installed {
    Installed {
        name: name.to_string(),
        explicit,
        depends: depends.iter().map(|d| d.to_vec()).collect(),
        optdepends: optdepends.iter().map(|d| d.to_vec()).collect(),
    }
}

#[test]
fn packages_that_nothing_needs() {
    let pkgs = vec![
        installed("app", true, &[&[1]], &[&[3]]),
        installed("lib", false, &[&[2]], &[]),
        installed("base", false, &[&[1]], &[]),
        installed("extra", false, &[&[4]], &[]),
        installed("zlib", false, &[], &[]),
        // Two that only need each other.
        installed("b-orphan", false, &[&[6]], &[]),
        installed("a-orphan", false, &[&[5]], &[]),
    ];
    assert_eq!(unneeded_pkgs(&pkgs, false), strings(&["a-orphan", "b-orphan", "extra", "zlib"]));
    assert_eq!(unneeded_pkgs(&pkgs, true), strings(&["a-orphan", "b-orphan"]));
    // Every provider of a dependency stays.
    let pkgs = vec![
        installed("app", true, &[&[1, 2]], &[]),
        installed("jre-a", false, &[], &[]),
        installed("jre-b", false, &[], &[]),
    ];
    assert!(unneeded_pkgs(&pkgs, false).is_empty());
    assert!(unneeded_pkgs(&Vec::new(), true).is_empty());
    assert!(is_sound(&pkgs));
    assert!(!is_sound(&vec![installed("a", true, &[], &[]), installed("a", false, &[], &[])]));
    assert!(!is_sound(&vec![installed("a", true, &[&[0], &[0, 1]], &[])]));
    assert!(!is_sound(&vec![installed("a", true, &[], &[&[1]])]));
}

fn target(repo: Option<&str>, pkg: &str, known: bool) -> Target {
    Target { repo: repo.map(str::to_string), pkg: pkg.to_string(), known }
}

fn side_names(list: Vec<Target>) -> String {
    list.into_iter().map(|t| t.pkg).collect::<Vec<_>>().join(" ")
}

#[test]
fn targets_are_parted_by_repository() {
    let names = RepoNames {
        sync: strings(&["core", "extra"]),
        pkgbuild: strings(&["mine"]),
        aur: "aur".to_string(),
    };
    let targets = || {
        vec![
            target(Some("core"), "a", false),
            target(Some("mine"), "b", false),
            target(Some("aur"), "c", true),
            target(Some("."), "d", false),
            target(Some("gone"), "e", false),
            target(None, "f", true),
            target(None, "g", false),
        ]
    };
    let all = Modes { repo: true, aur: true, pkgbuild: true };
    let (local, aur) = split_repo_aur_targets(all, &names, targets());
    assert_eq!(side_names(local), "a e f");
    assert_eq!(side_names(aur), "b c d g");
    let (local, aur) = split_repo_aur_info(all, &names, targets());
    assert_eq!(side_names(local), "a f");
    assert_eq!(side_names(aur), "b c d e g");

    let repo = Modes { repo: true, aur: false, pkgbuild: false };
    let (local, aur) = split_repo_aur_targets(repo, &names, targets());
    assert_eq!(local.len(), 7);
    assert!(aur.is_empty());
    let none = Modes { repo: false, aur: true, pkgbuild: false };
    let (local, aur) = split_repo_aur_info(none, &names, targets());
    assert!(local.is_empty());
    assert_eq!(aur.len(), 7);
}

#[test]
fn packages_are_parted_by_where_they_are_known() {
    let known = |name: &str, in_repo: bool, in_aur: bool| Known {
        name: name.to_string(),
        in_repo,
        in_aur,
    };
    let pkgs = vec![known("a", true, true), known("b", false, true), known("c", false, false)];
    assert_eq!(split_repo_aur_pkgs(false, &pkgs), (strings(&["a"]), strings(&["b", "c"])));
    assert_eq!(split_repo_aur_pkgs(true, &pkgs), (strings(&["a"]), strings(&["b"])));
    let db = |local: bool, pkgs: &[&str]| Database { local, pkgs: strings(pkgs) };
    let dbs = vec![db(false, &["a", "x"]), db(true, &["b"]), db(false, &["y"])];
    assert_eq!(repo_aur_pkgs(false, &dbs, &pkgs), (strings(&["a"]), strings(&["b", "c"])));
    assert_eq!(repo_aur_pkgs(true, &dbs, &pkgs), (strings(&["a", "x", "y"]), strings(&["b"])));
}

#[test]
fn targets_are_matched_in_lower_case() {
    let targets = strings(&["FireFox", "ÉCRAN", "vim"]);
    assert_eq!(lowercase_targets(&targets), strings(&["firefox", "écran", "vim"]));
    assert_eq!(aur_targets(&targets), strings(&["vim", "écran", "firefox"]));
}
