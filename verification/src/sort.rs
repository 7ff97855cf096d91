//! Stable ordering.

use crate::text::{
    is_before, lemma_text_before_total, lemma_text_before_transitive, text_before,
};
use vstd::prelude::*;

verus! {

/// What an entry is ordered by.
#[derive(Debug)]
pub enum SortKey {
    Number(i128),
    Text(String),
}

/// What a [`SortKey`] stands for.
pub enum KeyView {
    Number(int),
    Text(Seq<char>),
}

impl View for SortKey {
    type V = KeyView;

    open spec fn view(&self) -> KeyView {
        match self {
            SortKey::Number(n) => KeyView::Number(*n as int),
            SortKey::Text(s) => KeyView::Text(s@),
        }
    }
}

/// The views of a sequence of keys.
pub open spec fn key_views(keys: Seq<SortKey>) -> Seq<KeyView> {
    Seq::new(keys.len(), |i: int| keys[i]@)
}

/// Whether one key comes before another: numbers by size, texts like strings
/// are ordered, and numbers before texts.
pub open spec fn key_before(a: KeyView, b: KeyView) -> bool {
    match (a, b) {
        (KeyView::Number(x), KeyView::Number(y)) => x < y,
        (KeyView::Text(x), KeyView::Text(y)) => text_before(x, y),
        (KeyView::Number(_), KeyView::Text(_)) => true,
        (KeyView::Text(_), KeyView::Number(_)) => false,
    }
}

/// Of any two different keys one comes before the other.
pub proof fn lemma_key_before_total(a: KeyView, b: KeyView)
    ensures
        key_before(a, b) || key_before(b, a) || a == b,
        !(key_before(a, b) && key_before(b, a)),
        a == b ==> !key_before(a, b),
{
    if let (KeyView::Text(x), KeyView::Text(y)) = (a, b) {
        lemma_text_before_total(x, y);
    }
}

/// Keys before a key come before those behind it.
pub proof fn lemma_key_before_transitive(a: KeyView, b: KeyView, c: KeyView)
    ensures
        key_before(a, b) && key_before(b, c) ==> key_before(a, c),
{
    if let (KeyView::Text(x), KeyView::Text(y)) = (a, b) {
        if let KeyView::Text(z) = c {
            lemma_text_before_transitive(x, y, z);
        }
    }
}

fn is_key_before(a: &SortKey, b: &SortKey) -> (r: bool)
    ensures
        r == key_before(a@, b@),
{
    match (a, b) {
        (SortKey::Number(x), SortKey::Number(y)) => *x < *y,
        (SortKey::Text(x), SortKey::Text(y)) => is_before(x.as_str(), y.as_str()),
        (SortKey::Number(_), SortKey::Text(_)) => true,
        (SortKey::Text(_), SortKey::Number(_)) => false,
    }
}

/// Whether the entry at `a` goes before the one at `b`: by key, and as they
/// stood where the keys are the same.
pub open spec fn precedes(keys: Seq<KeyView>, a: int, b: int) -> bool {
    key_before(keys[a], keys[b]) || (keys[a] == keys[b] && a < b)
}

/// Whether positions are those of all entries, in stable order of their keys.
/// As no position precedes itself, each of them is there once.
pub open spec fn is_order(order: Seq<usize>, keys: Seq<KeyView>) -> bool {
    &&& order.len() == keys.len()
    &&& forall|i: int| 0 <= i < order.len() ==> (#[trigger] order[i]) < keys.len()
    &&& forall|i: int, j: int|
        0 <= i < j < order.len() ==> precedes(
            keys,
            #[trigger] order[i] as int,
            #[trigger] order[j] as int,
        )
}

/// Whether positions are those of the first `n` entries, in stable order.
pub open spec fn is_partial_order(order: Seq<usize>, keys: Seq<KeyView>, n: int) -> bool {
    &&& order.len() == n
    &&& forall|i: int| 0 <= i < order.len() ==> (#[trigger] order[i]) < n
    &&& forall|i: int, j: int|
        0 <= i < j < order.len() ==> precedes(
            keys,
            #[trigger] order[i] as int,
            #[trigger] order[j] as int,
        )
}

/// Orders entries by their keys, those with the same key as they stood.
pub fn order_by(keys: &Vec<SortKey>) -> (r: Vec<usize>)
    ensures
        is_order(r@, key_views(keys@)),
{
    let ghost views = key_views(keys@);
    let mut order: Vec<usize> = Vec::new();
    let mut n: usize = 0;
    while n < keys.len()
        invariant
            n <= keys@.len(),
            views == key_views(keys@),
            is_partial_order(order@, views, n as int),
        decreases keys@.len() - n,
    {
        let ghost before = order@;
        let mut p: usize = order.len();
        while p > 0 && is_key_before(&keys[n], &keys[order[p - 1]])
            invariant
                n < keys@.len(),
                views == key_views(keys@),
                order@ == before,
                is_partial_order(before, views, n as int),
                p <= before.len(),
                forall|i: int|
                    p <= i < before.len() ==> key_before(
                        views[n as int],
                        views[#[trigger] before[i] as int],
                    ),
            decreases p,
        {
            p -= 1;
        }
        order.insert(p, n);
        proof {
            let after = order@;
            assert(after == before.insert(p as int, n));
            assert forall|i: int| 0 <= i < p implies precedes(
                views,
                #[trigger] before[i] as int,
                n as int,
            ) by {
                let last = before[p - 1] as int;
                lemma_key_before_total(views[n as int], views[last]);
                if i < p - 1 {
                    assert(precedes(views, before[i] as int, last));
                    lemma_key_before_transitive(
                        views[before[i] as int],
                        views[last],
                        views[n as int],
                    );
                }
            }
            assert forall|i: int| 0 <= i < after.len() implies (#[trigger] after[i]) < n + 1 by {
                if i < p {
                    assert(after[i] == before[i]);
                } else if i > p {
                    assert(after[i] == before[i - 1]);
                }
            }
            assert forall|i: int, j: int| 0 <= i < j < after.len() implies precedes(
                views,
                #[trigger] after[i] as int,
                #[trigger] after[j] as int,
            ) by {
                let a = if i < p {
                    i
                } else {
                    i - 1
                };
                let b = if j < p {
                    j
                } else {
                    j - 1
                };
                if i != p {
                    assert(after[i] == before[a]);
                }
                if j != p {
                    assert(after[j] == before[b]);
                }
            }
        }
        n += 1;
    }
    order
}

/// The entries at positions, in the order of the positions.
pub open spec fn arranged<T>(list: Seq<T>, order: Seq<usize>) -> Seq<T> {
    Seq::new(order.len(), |i: int| list[order[i] as int])
}

/// There is only one stable order.
pub proof fn law_the_stable_order_is_unique(
    a: Seq<usize>,
    b: Seq<usize>,
    keys: Seq<KeyView>,
)
    requires
        is_order(a, keys),
        is_order(b, keys),
    ensures
        a == b,
{
    lemma_order_unique(a, b, keys, 0);
    assert(a =~= b);
}

/// Every entry is in the order.
pub proof fn law_the_order_holds_every_entry(order: Seq<usize>, keys: Seq<KeyView>, k: int)
    requires
        is_order(order, keys),
        0 <= k < keys.len(),
    ensures
        exists|i: int| 0 <= i < order.len() && (#[trigger] order[i]) == k,
{
    let s = order.map_values(|x: usize| x as int);
    assert forall|i: int, j: int| 0 <= i < s.len() && 0 <= j < s.len() && i != j implies s[i]
        != s[j] by {
        if i < j {
            assert(precedes(keys, order[i] as int, order[j] as int));
            lemma_key_before_total(keys[order[i] as int], keys[order[j] as int]);
        } else {
            assert(precedes(keys, order[j] as int, order[i] as int));
            lemma_key_before_total(keys[order[i] as int], keys[order[j] as int]);
        }
    }
    assert(s.no_duplicates());
    s.unique_seq_to_set();
    let all = vstd::set_lib::set_int_range(0, keys.len() as int);
    let rest = all.remove(k);
    vstd::set_lib::lemma_int_range(0, keys.len() as int);
    if forall|i: int| 0 <= i < order.len() ==> (#[trigger] order[i]) != k {
        assert forall|x: int| s.to_set().contains(x) implies rest.contains(x) by {
            let i = choose|i: int| 0 <= i < s.len() && s[i] == x;
            assert(order[i] == x);
        }
        assert(s.to_set().subset_of(rest));
        vstd::set_lib::lemma_len_subset(s.to_set(), rest);
    }
}

proof fn lemma_order_unique(a: Seq<usize>, b: Seq<usize>, keys: Seq<KeyView>, n: int)
    requires
        is_order(a, keys),
        is_order(b, keys),
        0 <= n <= a.len(),
        forall|i: int| 0 <= i < n ==> a[i] == b[i],
    ensures
        forall|i: int| 0 <= i < a.len() ==> a[i] == b[i],
    decreases a.len() - n,
{
    if n < a.len() {
        if a[n] != b[n] {
            law_the_order_holds_every_entry(b, keys, a[n] as int);
            law_the_order_holds_every_entry(a, keys, b[n] as int);
            let i = choose|i: int| 0 <= i < b.len() && (#[trigger] b[i]) == a[n];
            let j = choose|j: int| 0 <= j < a.len() && (#[trigger] a[j]) == b[n];
            if i < n {
                assert(a[i] == b[i]);
                assert(precedes(keys, a[i] as int, a[n] as int));
                lemma_key_before_total(keys[a[n] as int], keys[a[n] as int]);
            } else if j < n {
                assert(b[j] == a[j]);
                assert(precedes(keys, b[j] as int, b[n] as int));
                lemma_key_before_total(keys[b[n] as int], keys[b[n] as int]);
            } else {
                assert(precedes(keys, b[n] as int, b[i] as int));
                assert(precedes(keys, a[n] as int, a[j] as int));
                lemma_key_before_total(keys[a[n] as int], keys[b[n] as int]);
            }
        }
        lemma_order_unique(a, b, keys, n + 1);
    }
}

/// Entries come out in ascending order of their keys, and those with the same key
/// in the order in which they stood.
pub proof fn law_entries_come_in_order(order: Seq<usize>, keys: Seq<KeyView>, i: int, j: int)
    requires
        is_order(order, keys),
        0 <= i < j < order.len(),
    ensures
        match (keys[order[i] as int], keys[order[j] as int]) {
            (KeyView::Number(x), KeyView::Number(y)) => x < y || (x == y && order[i] < order[j]),
            (KeyView::Text(x), KeyView::Text(y)) => text_before(x, y) || (x == y && order[i]
                < order[j]),
            (KeyView::Number(_), KeyView::Text(_)) => true,
            (KeyView::Text(_), KeyView::Number(_)) => false,
        },
        order[i] != order[j],
{
    let x = order[i] as int;
    let y = order[j] as int;
    assert(precedes(keys, x, y));
    lemma_key_before_total(keys[x], keys[y]);
}

} // verus!
