//! Which installed packages nothing needs.

use crate::sort::{
    is_order, key_views, law_the_order_holds_every_entry, order_by, precedes, KeyView, SortKey,
};
use crate::text::{ascending, same, text_before, texts};
use vstd::prelude::*;

verus! {

/// An installed package. A dependency is given by the positions of the packages
/// that satisfy it, by name or by what they provide.
#[derive(Debug)]
pub struct Installed {
    pub name: String,
    /// Whether the user asked for the package.
    pub explicit: bool,
    pub depends: Vec<Vec<usize>>,
    pub optdepends: Vec<Vec<usize>>,
}

/// Whether one of several dependencies is satisfied by the package at `q`.
pub open spec fn met_by(deps: Seq<Vec<usize>>, q: int) -> bool {
    exists|i: int, j: int|
        0 <= i < deps.len() && 0 <= j < deps[i]@.len() && (#[trigger] deps[i]@[j]) == q
}

/// Whether a package keeps the one at `q`: it depends on it, or it does so
/// optionally and optional dependencies count.
pub open spec fn keeps(pkg: Installed, q: int, optional: bool) -> bool {
    met_by(pkg.depends@, q) || (optional && met_by(pkg.optdepends@, q))
}

/// Whether one of a set of packages keeps the one at `q`.
pub open spec fn kept_by(pkgs: Seq<Installed>, optional: bool, set: Set<int>, q: int) -> bool {
    exists|p: int|
        0 <= p < pkgs.len() && #[trigger] set.contains(p) && keeps(pkgs[p], q, optional)
}

/// The packages that are wanted over a chain of at most `n` dependencies from
/// one the user asked for.
pub open spec fn wanted_within(pkgs: Seq<Installed>, optional: bool, n: nat) -> Set<int>
    decreases n,
{
    if n == 0 {
        Set::new(|q: int| 0 <= q < pkgs.len() && pkgs[q].explicit)
    } else {
        let set = wanted_within(pkgs, optional, (n - 1) as nat);
        Set::new(
            |q: int|
                0 <= q < pkgs.len() && (set.contains(q) || kept_by(pkgs, optional, set, q)),
        )
    }
}

/// Whether the package at `q` is wanted: asked for by the user, or kept by a
/// package that is wanted.
pub open spec fn wanted(pkgs: Seq<Installed>, optional: bool, q: int) -> bool {
    exists|n: nat| (#[trigger] wanted_within(pkgs, optional, n)).contains(q)
}

/// Whether dependencies only name packages that are there.
pub open spec fn within(deps: Seq<Vec<usize>>, n: int) -> bool {
    forall|i: int, j: int|
        0 <= i < deps.len() && 0 <= j < deps[i]@.len() ==> (#[trigger] deps[i]@[j]) < n
}

/// Whether a list of installed packages is sound: no name occurs twice, and
/// every dependency names packages of the list.
pub open spec fn sound(pkgs: Seq<Installed>) -> bool {
    &&& forall|i: int, j: int|
        0 <= i < j < pkgs.len() ==> (#[trigger] pkgs[i]).name@ != (#[trigger] pkgs[j]).name@
    &&& forall|i: int|
        0 <= i < pkgs.len() ==> within((#[trigger] pkgs[i]).depends@, pkgs.len() as int) && within(
            pkgs[i].optdepends@,
            pkgs.len() as int,
        )
}

fn all_within(deps: &Vec<Vec<usize>>, n: usize) -> (r: bool)
    ensures
        r == within(deps@, n as int),
{
    let mut i: usize = 0;
    while i < deps.len()
        invariant
            i <= deps@.len(),
            forall|a: int, b: int|
                0 <= a < i && 0 <= b < deps@[a]@.len() ==> (#[trigger] deps@[a]@[b]) < n,
        decreases deps@.len() - i,
    {
        let mut j: usize = 0;
        while j < deps[i].len()
            invariant
                i < deps@.len(),
                j <= deps@[i as int]@.len(),
                forall|b: int| 0 <= b < j ==> (#[trigger] deps@[i as int]@[b]) < n,
            decreases deps@[i as int]@.len() - j,
        {
            if deps[i][j] >= n {
                assert(deps@[i as int]@[j as int] >= n);
                return false;
            }
            j += 1;
        }
        i += 1;
    }
    true
}

/// Tells whether a list of installed packages is sound.
pub fn is_sound(pkgs: &Vec<Installed>) -> (r: bool)
    ensures
        r == sound(pkgs@),
{
    let n: usize = pkgs.len();
    let mut i: usize = 0;
    while i < n
        invariant
            i <= n == pkgs@.len(),
            forall|a: int, b: int|
                0 <= a < b < pkgs@.len() && a < i ==> (#[trigger] pkgs@[a]).name@ != (
                #[trigger] pkgs@[b]).name@,
            forall|a: int|
                0 <= a < i ==> within((#[trigger] pkgs@[a]).depends@, n as int) && within(
                    pkgs@[a].optdepends@,
                    n as int,
                ),
        decreases n - i,
    {
        if !all_within(&pkgs[i].depends, n) || !all_within(&pkgs[i].optdepends, n) {
            assert(!within(pkgs@[i as int].depends@, n as int) || !within(
                pkgs@[i as int].optdepends@,
                n as int,
            ));
            return false;
        }
        let mut j: usize = i + 1;
        while j < n
            invariant
                i < j <= n == pkgs@.len(),
                forall|b: int|
                    i < b < j ==> pkgs@[i as int].name@ != (#[trigger] pkgs@[b]).name@,
            decreases n - j,
        {
            if same(pkgs[i].name.as_str(), pkgs[j].name.as_str()) {
                assert(pkgs@[i as int].name@ == pkgs@[j as int].name@);
                return false;
            }
            j += 1;
        }
        i += 1;
    }
    true
}

proof fn lemma_kept_is_wanted(pkgs: Seq<Installed>, optional: bool, p: int, q: int)
    requires
        0 <= p < pkgs.len(),
        0 <= q < pkgs.len(),
        wanted(pkgs, optional, p),
        keeps(pkgs[p], q, optional),
    ensures
        wanted(pkgs, optional, q),
{
    let n = choose|n: nat| (#[trigger] wanted_within(pkgs, optional, n)).contains(p);
    let set = wanted_within(pkgs, optional, n);
    assert(kept_by(pkgs, optional, set, q));
    assert(wanted_within(pkgs, optional, (n + 1) as nat).contains(q));
}

proof fn lemma_closed_holds_wanted(
    pkgs: Seq<Installed>,
    optional: bool,
    kept: Seq<bool>,
    n: nat,
    q: int,
)
    requires
        kept.len() == pkgs.len(),
        forall|p: int| 0 <= p < pkgs.len() && (#[trigger] pkgs[p]).explicit ==> kept[p],
        forall|p: int, r: int|
            0 <= p < pkgs.len() && 0 <= r < pkgs.len() && kept[p] && #[trigger] keeps(
                pkgs[p],
                r,
                optional,
            ) ==> kept[r],
        0 <= q < pkgs.len(),
        wanted_within(pkgs, optional, n).contains(q),
    ensures
        kept[q],
    decreases n,
{
    if n > 0 {
        let set = wanted_within(pkgs, optional, (n - 1) as nat);
        if set.contains(q) {
            lemma_closed_holds_wanted(pkgs, optional, kept, (n - 1) as nat, q);
        } else {
            assert(kept_by(pkgs, optional, set, q));
            let p = choose|p: int|
                0 <= p < pkgs.len() && #[trigger] set.contains(p) && keeps(pkgs[p], q, optional);
            lemma_closed_holds_wanted(pkgs, optional, kept, (n - 1) as nat, p);
        }
    }
}

/// How many packages are not kept.
spec fn open_count(kept: Seq<bool>) -> nat
    decreases kept.len(),
{
    if kept.len() == 0 {
        0
    } else {
        open_count(kept.drop_last()) + (if kept.last() {
            0nat
        } else {
            1nat
        })
    }
}

proof fn lemma_open_count(kept: Seq<bool>, i: int)
    requires
        0 <= i < kept.len(),
        !kept[i],
    ensures
        open_count(kept) > 0,
        open_count(kept.update(i, true)) == open_count(kept) - 1,
    decreases kept.len(),
{
    let after = kept.update(i, true);
    if i == kept.len() - 1 {
        assert(after.drop_last() =~= kept.drop_last());
    } else {
        lemma_open_count(kept.drop_last(), i);
        assert(after.drop_last() =~= kept.drop_last().update(i, true));
    }
}

/// Marks what dependencies are satisfied by, and queues it.
fn mark(
    pkgs: &Vec<Installed>,
    optional: bool,
    p: usize,
    deps: &Vec<Vec<usize>>,
    kept: &mut Vec<bool>,
    queue: &mut Vec<usize>,
)
    requires
        p < pkgs@.len(),
        wanted(pkgs@, optional, p as int),
        within(deps@, pkgs@.len() as int),
        forall|q: int| #[trigger] met_by(deps@, q) ==> keeps(pkgs@[p as int], q, optional),
        old(kept)@.len() == pkgs@.len(),
        forall|q: int|
            0 <= q < pkgs@.len() && #[trigger] old(kept)@[q] ==> wanted(pkgs@, optional, q),
        forall|i: int|
            0 <= i < old(queue)@.len() ==> (#[trigger] old(queue)@[i]) < pkgs@.len()
                && old(kept)@[old(queue)@[i] as int],
    ensures
        final(kept)@.len() == pkgs@.len(),
        forall|q: int|
            0 <= q < pkgs@.len() && #[trigger] final(kept)@[q] ==> wanted(pkgs@, optional, q),
        forall|q: int| 0 <= q < pkgs@.len() && old(kept)@[q] ==> #[trigger] final(kept)@[q],
        forall|q: int| 0 <= q < pkgs@.len() && #[trigger] met_by(deps@, q) ==> final(kept)@[q],
        forall|q: int|
            0 <= q < pkgs@.len() && #[trigger] final(kept)@[q] && !old(kept)@[q]
                ==> final(queue)@.contains(q as usize),
        forall|i: int|
            0 <= i < final(queue)@.len() ==> (#[trigger] final(queue)@[i]) < pkgs@.len()
                && final(kept)@[final(queue)@[i] as int],
        forall|q: usize| #[trigger] old(queue)@.contains(q) ==> final(queue)@.contains(q),
        open_count(final(kept)@) + final(queue)@.len() == open_count(old(kept)@)
            + old(queue)@.len(),
{
    let ghost start = kept@;
    let ghost before = queue@;
    let mut i: usize = 0;
    while i < deps.len()
        invariant
            p < pkgs@.len(),
            i <= deps@.len(),
            wanted(pkgs@, optional, p as int),
            within(deps@, pkgs@.len() as int),
            forall|q: int| #[trigger] met_by(deps@, q) ==> keeps(pkgs@[p as int], q, optional),
            start == old(kept)@,
            before == old(queue)@,
            kept@.len() == pkgs@.len(),
            start.len() == pkgs@.len(),
            forall|q: int|
                0 <= q < pkgs@.len() && #[trigger] kept@[q] ==> wanted(pkgs@, optional, q),
            forall|q: int| 0 <= q < pkgs@.len() && start[q] ==> #[trigger] kept@[q],
            forall|a: int, b: int|
                0 <= a < i && 0 <= b < deps@[a]@.len() ==> kept@[(
                #[trigger] deps@[a]@[b]) as int],
            forall|q: int|
                0 <= q < pkgs@.len() && #[trigger] kept@[q] && !start[q] ==> queue@.contains(
                    q as usize,
                ),
            forall|k: int|
                0 <= k < queue@.len() ==> (#[trigger] queue@[k]) < pkgs@.len()
                    && kept@[queue@[k] as int],
            forall|q: usize| #[trigger] before.contains(q) ==> queue@.contains(q),
            open_count(kept@) + queue@.len() == open_count(start) + before.len(),
        decreases deps@.len() - i,
    {
        let mut j: usize = 0;
        while j < deps[i].len()
            invariant
                p < pkgs@.len(),
                i < deps@.len(),
                j <= deps@[i as int]@.len(),
                wanted(pkgs@, optional, p as int),
                within(deps@, pkgs@.len() as int),
                forall|q: int| #[trigger]
                    met_by(deps@, q) ==> keeps(pkgs@[p as int], q, optional),
                start == old(kept)@,
                before == old(queue)@,
                kept@.len() == pkgs@.len(),
                start.len() == pkgs@.len(),
                forall|q: int|
                    0 <= q < pkgs@.len() && #[trigger] kept@[q] ==> wanted(pkgs@, optional, q),
                forall|q: int| 0 <= q < pkgs@.len() && start[q] ==> #[trigger] kept@[q],
                forall|a: int, b: int|
                    0 <= a < i && 0 <= b < deps@[a]@.len() ==> kept@[(
                    #[trigger] deps@[a]@[b]) as int],
                forall|b: int|
                    0 <= b < j ==> kept@[(#[trigger] deps@[i as int]@[b]) as int],
                forall|q: int|
                    0 <= q < pkgs@.len() && #[trigger] kept@[q] && !start[q] ==> queue@.contains(
                        q as usize,
                    ),
                forall|k: int|
                    0 <= k < queue@.len() ==> (#[trigger] queue@[k]) < pkgs@.len()
                        && kept@[queue@[k] as int],
                forall|q: usize| #[trigger] before.contains(q) ==> queue@.contains(q),
                open_count(kept@) + queue@.len() == open_count(start) + before.len(),
            decreases deps@[i as int]@.len() - j,
        {
            let q: usize = deps[i][j];
            assert(deps@[i as int]@[j as int] == q);
            assert(met_by(deps@, q as int));
            if !kept[q] {
                let ghost was = kept@;
                let ghost queued = queue@;
                proof {
                    lemma_kept_is_wanted(pkgs@, optional, p as int, q as int);
                    lemma_open_count(kept@, q as int);
                }
                kept.set(q, true);
                queue.push(q);
                proof {
                    assert(kept@ == was.update(q as int, true));
                    assert(queue@[queued.len() as int] == q);
                    assert forall|x: usize| queued.contains(x) implies #[trigger] queue@.contains(
                        x,
                    ) by {
                        let k = choose|k: int| 0 <= k < queued.len() && queued[k] == x;
                        assert(queue@[k] == x);
                    }
                    assert(queue@.contains(q));
                }
            }
            j += 1;
        }
        i += 1;
    }
    proof {
        assert forall|q: int| 0 <= q < pkgs@.len() && #[trigger] met_by(
            deps@,
            q,
        ) implies kept@[q] by {
            let (a, b) = choose|a: int, b: int|
                0 <= a < deps@.len() && 0 <= b < deps@[a]@.len() && (#[trigger] deps@[a]@[b]) == q;
            assert(kept@[deps@[a]@[b] as int]);
        }
    }
}

/// Which packages are wanted.
fn wanted_pkgs(pkgs: &Vec<Installed>, optional: bool) -> (r: Vec<bool>)
    requires
        sound(pkgs@),
    ensures
        r@.len() == pkgs@.len(),
        forall|q: int|
            0 <= q < pkgs@.len() ==> #[trigger] r@[q] == wanted(pkgs@, optional, q),
{
    let count: usize = pkgs.len();
    let mut kept: Vec<bool> = Vec::new();
    let mut queue: Vec<usize> = Vec::new();
    let mut i: usize = 0;
    while i < count
        invariant
            i <= count == pkgs@.len(),
            kept@.len() == i,
            forall|q: int| 0 <= q < i ==> #[trigger] kept@[q] == pkgs@[q].explicit,
            forall|q: int| 0 <= q < i && #[trigger] kept@[q] ==> queue@.contains(q as usize),
            forall|k: int|
                0 <= k < queue@.len() ==> (#[trigger] queue@[k]) < i && kept@[queue@[k] as int],
        decreases pkgs@.len() - i,
    {
        let ghost queued = queue@;
        kept.push(pkgs[i].explicit);
        if pkgs[i].explicit {
            queue.push(i);
            proof {
                assert(queue@[queued.len() as int] == i);
                assert forall|x: usize| queued.contains(x) implies #[trigger] queue@.contains(
                    x,
                ) by {
                    let k = choose|k: int| 0 <= k < queued.len() && queued[k] == x;
                    assert(queue@[k] == x);
                }
            }
        }
        i += 1;
    }
    proof {
        assert forall|q: int| 0 <= q < pkgs@.len() && #[trigger] kept@[q] implies wanted(
            pkgs@,
            optional,
            q,
        ) by {
            assert(wanted_within(pkgs@, optional, 0).contains(q));
        }
    }
    while queue.len() > 0
        invariant
            sound(pkgs@),
            count == pkgs@.len(),
            kept@.len() == pkgs@.len(),
            forall|q: int|
                0 <= q < pkgs@.len() && (#[trigger] pkgs@[q]).explicit ==> kept@[q],
            forall|q: int|
                0 <= q < pkgs@.len() && #[trigger] kept@[q] ==> wanted(pkgs@, optional, q),
            forall|k: int|
                0 <= k < queue@.len() ==> (#[trigger] queue@[k]) < pkgs@.len()
                    && kept@[queue@[k] as int],
            forall|p: int, r: int|
                0 <= p < pkgs@.len() && 0 <= r < pkgs@.len() && kept@[p] && !queue@.contains(
                    p as usize,
                ) && #[trigger] keeps(pkgs@[p], r, optional) ==> kept@[r],
        decreases open_count(kept@) + queue@.len(),
    {
        let ghost queued = queue@;
        let ghost was = kept@;
        let p: usize = match queue.pop() {
            Some(p) => p,
            None => 0,
        };
        let ghost popped = queue@;
        proof {
            assert(queued[queued.len() - 1] == p);
            assert(was[p as int]);
            assert forall|x: usize| queued.contains(x) implies x == p || #[trigger] popped.contains(
                x,
            ) by {
                let k = choose|k: int| 0 <= k < queued.len() && queued[k] == x;
                if k < queued.len() - 1 {
                    assert(popped[k] == x);
                }
            }
            assert forall|k: int| 0 <= k < popped.len() implies (#[trigger] popped[k]) < pkgs@.len()
                && was[popped[k] as int] by {
                assert(popped[k] == queued[k]);
            }
        }
        mark(pkgs, optional, p, &pkgs[p].depends, &mut kept, &mut queue);
        let ghost half = kept@;
        let ghost halfway = queue@;
        if optional {
            mark(pkgs, optional, p, &pkgs[p].optdepends, &mut kept, &mut queue);
        }
        proof {
            assert forall|a: int, r: int|
                0 <= a < pkgs@.len() && 0 <= r < pkgs@.len() && kept@[a] && !queue@.contains(
                    a as usize,
                ) && #[trigger] keeps(pkgs@[a], r, optional) implies kept@[r] by {
                if half[a] && was[a] {
                    if a == p {
                        if met_by(pkgs@[a].depends@, r) {
                            assert(half[r]);
                        }
                    } else {
                        assert(!popped.contains(a as usize)) by {
                            if popped.contains(a as usize) {
                                assert(halfway.contains(a as usize));
                            }
                        }
                        assert(!queued.contains(a as usize));
                        assert(was[r]);
                        assert(half[r]);
                    }
                } else if half[a] {
                    assert(halfway.contains(a as usize));
                }
            }
        }
    }
    proof {
        assert forall|p: int, r: int|
            0 <= p < pkgs@.len() && 0 <= r < pkgs@.len() && kept@[p] && #[trigger] keeps(
                pkgs@[p],
                r,
                optional,
            ) implies kept@[r] by {
            assert(!queue@.contains(p as usize));
        }
        assert forall|q: int| 0 <= q < pkgs@.len() implies #[trigger] kept@[q] == wanted(
            pkgs@,
            optional,
            q,
        ) by {
            if wanted(pkgs@, optional, q) {
                let n = choose|n: nat|
                    (#[trigger] wanted_within(pkgs@, optional, n)).contains(q);
                lemma_closed_holds_wanted(pkgs@, optional, kept@, n, q);
            }
        }
    }
    kept
}

/// Whether a name is that of a package that is not wanted.
pub open spec fn unneeded(pkgs: Seq<Installed>, optional: bool, name: Seq<char>) -> bool {
    exists|q: int|
        0 <= q < pkgs.len() && (#[trigger] pkgs[q]).name@ == name && !wanted(pkgs, optional, q)
}

/// The installed packages that nothing needs: those the user did not ask for and
/// that no chain of dependencies leads to from one they asked for. Optional
/// dependencies count if they are to be kept.
pub fn unneeded_pkgs(pkgs: &Vec<Installed>, keep_optional: bool) -> (r: Vec<String>)
    requires
        sound(pkgs@),
    ensures
        ascending(texts(r@)),
        forall|name: Seq<char>| #[trigger]
            texts(r@).contains(name) <==> unneeded(pkgs@, keep_optional, name),
{
    let kept = wanted_pkgs(pkgs, keep_optional);
    let mut keys: Vec<SortKey> = Vec::new();
    let ghost mut from: Seq<int> = Seq::empty();
    let mut i: usize = 0;
    while i < pkgs.len()
        invariant
            i <= pkgs@.len(),
            kept@.len() == pkgs@.len(),
            forall|q: int|
                0 <= q < pkgs@.len() ==> #[trigger] kept@[q] == wanted(pkgs@, keep_optional, q),
            from.len() == keys@.len(),
            forall|k: int|
                0 <= k < from.len() ==> 0 <= (#[trigger] from[k]) < i && !kept@[from[k]]
                    && keys@[k]@ == KeyView::Text(pkgs@[from[k]].name@),
            forall|a: int, b: int|
                0 <= a < b < from.len() ==> (#[trigger] from[a]) < (#[trigger] from[b]),
            forall|q: int| 0 <= q < i && !#[trigger] kept@[q] ==> from.contains(q),
        decreases pkgs@.len() - i,
    {
        if !kept[i] {
            let ghost before = from;
            keys.push(SortKey::Text(pkgs[i].name.clone()));
            proof {
                from = from.push(i as int);
                assert(from[before.len() as int] == i);
                assert forall|q: int| before.contains(q) implies #[trigger] from.contains(q) by {
                    let k = choose|k: int| 0 <= k < before.len() && before[k] == q;
                    assert(from[k] == q);
                }
            }
        }
        i += 1;
    }
    let ghost views = key_views(keys@);
    let order = order_by(&keys);
    let mut out: Vec<String> = Vec::new();
    let mut n: usize = 0;
    while n < order.len()
        invariant
            n <= order@.len(),
            is_order(order@, views),
            views == key_views(keys@),
            out@.len() == n,
            from.len() == keys@.len(),
            forall|k: int|
                0 <= k < from.len() ==> 0 <= (#[trigger] from[k]) < pkgs@.len() && keys@[k]@
                    == KeyView::Text(pkgs@[from[k]].name@),
            forall|k: int|
                0 <= k < n ==> (#[trigger] out@[k])@ == pkgs@[from[order@[k] as int]].name@,
        decreases order@.len() - n,
    {
        let k: usize = order[n];
        assert(views[k as int] == keys@[k as int]@);
        assert(from[k as int] < pkgs@.len());
        let name = match &keys[k] {
            SortKey::Text(name) => name.clone(),
            SortKey::Number(_) => String::new(),
        };
        out.push(name);
        n += 1;
    }
    proof {
        let list = texts(out@);
        assert forall|a: int, b: int| 0 <= a < b < list.len() implies text_before(
            #[trigger] list[a],
            #[trigger] list[b],
        ) by {
            let x = order@[a] as int;
            let y = order@[b] as int;
            assert(precedes(views, x, y));
            assert(views[x] == KeyView::Text(pkgs@[from[x]].name@));
            assert(views[y] == KeyView::Text(pkgs@[from[y]].name@));
            if x < y {
                assert(from[x] < from[y]);
            }
        }
        assert forall|name: Seq<char>| #[trigger] list.contains(name) <==> unneeded(
            pkgs@,
            keep_optional,
            name,
        ) by {
            if list.contains(name) {
                let a = choose|a: int| 0 <= a < list.len() && list[a] == name;
                let q = from[order@[a] as int];
                assert(!kept@[q]);
                assert(pkgs@[q].name@ == name);
            }
            if unneeded(pkgs@, keep_optional, name) {
                let q = choose|q: int|
                    0 <= q < pkgs@.len() && (#[trigger] pkgs@[q]).name@ == name && !wanted(
                        pkgs@,
                        keep_optional,
                        q,
                    );
                assert(!kept@[q]);
                let k = choose|k: int| 0 <= k < from.len() && from[k] == q;
                law_the_order_holds_every_entry(order@, views, k);
                let a = choose|a: int| 0 <= a < order@.len() && (#[trigger] order@[a]) == k;
                assert(out@[a]@ == name);
                assert(list[a] == name);
            }
        }
    }
    out
}

/// What the user asked for is never listed, and neither is anything that can
/// satisfy a dependency of a package that is not listed: whichever of its
/// dependencies it is, and whichever of the packages that satisfy it. Optional
/// dependencies hold a package the same way when they are to be kept.
pub proof fn law_no_dependency_of_a_kept_package_is_listed(
    pkgs: Seq<Installed>,
    optional: bool,
    listed: Seq<Seq<char>>,
)
    requires
        sound(pkgs),
        forall|name: Seq<char>| #[trigger]
            listed.contains(name) <==> unneeded(pkgs, optional, name),
    ensures
        forall|p: int|
            0 <= p < pkgs.len() && (#[trigger] pkgs[p]).explicit ==> !listed.contains(
                pkgs[p].name@,
            ),
        forall|p: int, i: int, j: int|
            0 <= p < pkgs.len() && !listed.contains(pkgs[p].name@) && 0 <= i
                < pkgs[p].depends@.len() && 0 <= j < pkgs[p].depends@[i]@.len()
                ==> !listed.contains(pkgs[#[trigger] pkgs[p].depends@[i]@[j] as int].name@),
        optional ==> forall|p: int, i: int, j: int|
            0 <= p < pkgs.len() && !listed.contains(pkgs[p].name@) && 0 <= i
                < pkgs[p].optdepends@.len() && 0 <= j < pkgs[p].optdepends@[i]@.len()
                ==> !listed.contains(pkgs[#[trigger] pkgs[p].optdepends@[i]@[j] as int].name@),
{
    assert forall|p: int| 0 <= p < pkgs.len() implies wanted(pkgs, optional, p)
        == !listed.contains((#[trigger] pkgs[p]).name@) by {
        lemma_listed_by_name(pkgs, optional, p);
    }
    assert forall|p: int| 0 <= p < pkgs.len() && (#[trigger] pkgs[p]).explicit implies
        !listed.contains(pkgs[p].name@) by {
        law_wanted_packages_keep_their_dependencies(pkgs, optional, p, p);
    }
    assert forall|p: int, i: int, j: int|
        0 <= p < pkgs.len() && !listed.contains(pkgs[p].name@) && 0 <= i < pkgs[p].depends@.len()
            && 0 <= j < pkgs[p].depends@[i]@.len() implies !listed.contains(
        pkgs[#[trigger] pkgs[p].depends@[i]@[j] as int].name@,
    ) by {
        let q = pkgs[p].depends@[i]@[j] as int;
        assert(within(pkgs[p].depends@, pkgs.len() as int));
        assert(met_by(pkgs[p].depends@, q));
        law_wanted_packages_keep_their_dependencies(pkgs, optional, p, q);
        assert(wanted(pkgs, optional, p) == !listed.contains(pkgs[p].name@));
        assert(wanted(pkgs, optional, q) == !listed.contains(pkgs[q].name@));
    }
    if optional {
        assert forall|p: int, i: int, j: int|
            0 <= p < pkgs.len() && !listed.contains(pkgs[p].name@) && 0 <= i
                < pkgs[p].optdepends@.len() && 0 <= j
                < pkgs[p].optdepends@[i]@.len() implies !listed.contains(
            pkgs[#[trigger] pkgs[p].optdepends@[i]@[j] as int].name@,
        ) by {
            let q = pkgs[p].optdepends@[i]@[j] as int;
            assert(within(pkgs[p].optdepends@, pkgs.len() as int));
            assert(met_by(pkgs[p].optdepends@, q));
            law_wanted_packages_keep_their_dependencies(pkgs, optional, p, q);
            assert(wanted(pkgs, optional, p) == !listed.contains(pkgs[p].name@));
            assert(wanted(pkgs, optional, q) == !listed.contains(pkgs[q].name@));
        }
    }
}

/// A package is listed by its name exactly when it is not wanted.
proof fn lemma_listed_by_name(pkgs: Seq<Installed>, optional: bool, p: int)
    requires
        sound(pkgs),
        0 <= p < pkgs.len(),
    ensures
        unneeded(pkgs, optional, pkgs[p].name@) == !wanted(pkgs, optional, p),
{
    if unneeded(pkgs, optional, pkgs[p].name@) {
        let q = choose|q: int|
            0 <= q < pkgs.len() && (#[trigger] pkgs[q]).name@ == pkgs[p].name@ && !wanted(
                pkgs,
                optional,
                q,
            );
        assert(q == p) by {
            if q < p {
                assert(pkgs[q].name@ != pkgs[p].name@);
            }
            if p < q {
                assert(pkgs[p].name@ != pkgs[q].name@);
            }
        }
    }
}

/// Whatever can be done without is listed: take any set of packages that holds
/// what the user asked for and, for each of its packages, all that can satisfy
/// any of its dependencies, and every installed package outside of it is listed.
/// Nothing is listed that is not installed.
pub proof fn law_all_that_can_go_is_listed(
    pkgs: Seq<Installed>,
    optional: bool,
    listed: Seq<Seq<char>>,
    held: Seq<bool>,
)
    requires
        sound(pkgs),
        forall|name: Seq<char>| #[trigger]
            listed.contains(name) <==> unneeded(pkgs, optional, name),
        held.len() == pkgs.len(),
        forall|p: int| 0 <= p < pkgs.len() && (#[trigger] pkgs[p]).explicit ==> held[p],
        forall|p: int, i: int, j: int|
            0 <= p < pkgs.len() && held[p] && 0 <= i < pkgs[p].depends@.len() && 0 <= j
                < pkgs[p].depends@[i]@.len()
                ==> held[#[trigger] pkgs[p].depends@[i]@[j] as int],
        optional ==> forall|p: int, i: int, j: int|
            0 <= p < pkgs.len() && held[p] && 0 <= i < pkgs[p].optdepends@.len() && 0 <= j
                < pkgs[p].optdepends@[i]@.len()
                ==> held[#[trigger] pkgs[p].optdepends@[i]@[j] as int],
    ensures
        forall|q: int|
            0 <= q < pkgs.len() && !held[q] ==> listed.contains((#[trigger] pkgs[q]).name@),
        forall|name: Seq<char>| #[trigger]
            listed.contains(name) ==> exists|q: int|
                0 <= q < pkgs.len() && (#[trigger] pkgs[q]).name@ == name,
{
    assert forall|p: int, r: int|
        0 <= p < pkgs.len() && 0 <= r < pkgs.len() && held[p] && #[trigger] keeps(
            pkgs[p],
            r,
            optional,
        ) implies held[r] by {
        if met_by(pkgs[p].depends@, r) {
            let deps = pkgs[p].depends@;
            let (i, j) = choose|i: int, j: int|
                0 <= i < deps.len() && 0 <= j < deps[i]@.len() && (#[trigger] deps[i]@[j]) == r;
            assert(held[pkgs[p].depends@[i]@[j] as int]);
        } else {
            let deps = pkgs[p].optdepends@;
            let (i, j) = choose|i: int, j: int|
                0 <= i < deps.len() && 0 <= j < deps[i]@.len() && (#[trigger] deps[i]@[j]) == r;
            assert(held[pkgs[p].optdepends@[i]@[j] as int]);
        }
    }
    assert forall|q: int| 0 <= q < pkgs.len() && !held[q] implies listed.contains(
        (#[trigger] pkgs[q]).name@,
    ) by {
        lemma_listed_by_name(pkgs, optional, q);
        if wanted(pkgs, optional, q) {
            law_nothing_else_is_wanted(pkgs, optional, held, q);
        }
        assert(unneeded(pkgs, optional, pkgs[q].name@));
    }
    assert forall|name: Seq<char>| #[trigger] listed.contains(name) implies exists|q: int|
        0 <= q < pkgs.len() && (#[trigger] pkgs[q]).name@ == name by {
        assert(unneeded(pkgs, optional, name));
    }
}

/// What the user asked for is wanted, and so is all that a wanted package
/// depends on.
pub proof fn law_wanted_packages_keep_their_dependencies(
    pkgs: Seq<Installed>,
    optional: bool,
    p: int,
    q: int,
)
    requires
        0 <= p < pkgs.len(),
        0 <= q < pkgs.len(),
    ensures
        pkgs[p].explicit ==> wanted(pkgs, optional, p),
        wanted(pkgs, optional, p) && keeps(pkgs[p], q, optional) ==> wanted(pkgs, optional, q),
{
    if pkgs[p].explicit {
        assert(wanted_within(pkgs, optional, 0).contains(p));
    }
    if wanted(pkgs, optional, p) && keeps(pkgs[p], q, optional) {
        lemma_kept_is_wanted(pkgs, optional, p, q);
    }
}

/// Nothing else is wanted: a set of packages that holds what the user asked for
/// and what its own packages depend on holds every wanted package.
pub proof fn law_nothing_else_is_wanted(
    pkgs: Seq<Installed>,
    optional: bool,
    kept: Seq<bool>,
    q: int,
)
    requires
        kept.len() == pkgs.len(),
        forall|p: int| 0 <= p < pkgs.len() && (#[trigger] pkgs[p]).explicit ==> kept[p],
        forall|p: int, r: int|
            0 <= p < pkgs.len() && 0 <= r < pkgs.len() && kept[p] && #[trigger] keeps(
                pkgs[p],
                r,
                optional,
            ) ==> kept[r],
        0 <= q < pkgs.len(),
        wanted(pkgs, optional, q),
    ensures
        kept[q],
{
    let n = choose|n: nat| (#[trigger] wanted_within(pkgs, optional, n)).contains(q);
    lemma_closed_holds_wanted(pkgs, optional, kept, n, q);
}

/// Keeping optional dependencies never makes a package unneeded.
pub proof fn law_optional_dependencies_only_keep_more(pkgs: Seq<Installed>, q: int)
    requires
        0 <= q < pkgs.len(),
        wanted(pkgs, false, q),
    ensures
        wanted(pkgs, true, q),
{
    let kept = Seq::new(pkgs.len(), |i: int| wanted(pkgs, true, i));
    assert forall|p: int| 0 <= p < pkgs.len() && (#[trigger] pkgs[p]).explicit implies kept[p] by {
        law_wanted_packages_keep_their_dependencies(pkgs, true, p, p);
    }
    assert forall|p: int, r: int|
        0 <= p < pkgs.len() && 0 <= r < pkgs.len() && kept[p] && #[trigger] keeps(
            pkgs[p],
            r,
            false,
        ) implies kept[r] by {
        law_wanted_packages_keep_their_dependencies(pkgs, true, p, r);
    }
    law_nothing_else_is_wanted(pkgs, false, kept, q);
}

/// A list is sound when no two of its packages have the same name and every
/// position that a dependency names, optional or not, is one of the list; and only
/// then.
pub proof fn law_what_makes_a_list_sound(pkgs: Seq<Installed>)
    ensures
        sound(pkgs) <==> {
            &&& forall|i: int, j: int|
                0 <= i < j < pkgs.len() ==> (#[trigger] pkgs[i]).name@ != (
                #[trigger] pkgs[j]).name@
            &&& forall|p: int, i: int, j: int|
                0 <= p < pkgs.len() && 0 <= i < pkgs[p].depends@.len() && 0 <= j
                    < pkgs[p].depends@[i]@.len() ==> (#[trigger] pkgs[p].depends@[i]@[j])
                    < pkgs.len()
            &&& forall|p: int, i: int, j: int|
                0 <= p < pkgs.len() && 0 <= i < pkgs[p].optdepends@.len() && 0 <= j
                    < pkgs[p].optdepends@[i]@.len() ==> (#[trigger] pkgs[p].optdepends@[i]@[j])
                    < pkgs.len()
        },
{
    if sound(pkgs) {
        assert forall|p: int, i: int, j: int|
            0 <= p < pkgs.len() && 0 <= i < pkgs[p].depends@.len() && 0 <= j
                < pkgs[p].depends@[i]@.len() implies (#[trigger] pkgs[p].depends@[i]@[j])
            < pkgs.len() by {
            assert(within(pkgs[p].depends@, pkgs.len() as int));
        }
        assert forall|p: int, i: int, j: int|
            0 <= p < pkgs.len() && 0 <= i < pkgs[p].optdepends@.len() && 0 <= j
                < pkgs[p].optdepends@[i]@.len() implies (#[trigger] pkgs[p].optdepends@[i]@[j])
            < pkgs.len() by {
            assert(within(pkgs[p].optdepends@, pkgs.len() as int));
        }
    }
}

} // verus!
