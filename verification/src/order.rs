//! Stable sorting: the order in which to take the items of a list.

use crate::text::{chars_of, same, views};
use vstd::prelude::*;

verus! {

/// `order` lists the numbers below the length of `keys`, each once, by ascending key; equal keys
/// stay in the order in which they stand.
pub open spec fn sorts(order: Seq<usize>, keys: Seq<i128>) -> bool {
    &&& order.len() == keys.len()
    &&& forall|i: int| 0 <= i < order.len() ==> (#[trigger] order[i]) < keys.len()
    &&& forall|k: int| 0 <= k < keys.len() ==> #[trigger] order.contains(k as usize)
    &&& forall|i: int, j: int|
        0 <= i < j < order.len() ==> precedes(keys, #[trigger] order[i], #[trigger] order[j])
}

/// Item `a` comes before item `b`.
pub open spec fn precedes(keys: Seq<i128>, a: usize, b: usize) -> bool {
    keys[a as int] < keys[b as int] || (keys[a as int] == keys[b as int] && a < b)
}

/// An order lists no item twice.
pub proof fn law_order_lists_once(order: Seq<usize>, keys: Seq<i128>)
    requires
        sorts(order, keys),
    ensures
        order.no_duplicates(),
{
    assert forall|i: int, j: int| 0 <= i < order.len() && 0 <= j < order.len() && i != j implies
        order[i] != order[j] by {
        if i < j {
            assert(precedes(keys, order[i], order[j]));
        } else {
            assert(precedes(keys, order[j], order[i]));
        }
    }
}

/// Inserting the next number keeps the smaller ones listed.
proof fn lemma_insert_lists(before: Seq<usize>, at: int, n: usize)
    requires
        0 <= at <= before.len(),
        forall|k: int| 0 <= k < n ==> #[trigger] before.contains(k as usize),
    ensures
        forall|k: int| 0 <= k < n + 1 ==> #[trigger] before.insert(at, n).contains(k as usize),
{
    let after = before.insert(at, n);
    assert forall|k: int| 0 <= k < n + 1 implies #[trigger] after.contains(k as usize) by {
        if k == n {
            assert(after[at] == n);
        } else {
            assert(before.contains(k as usize));
            let j = choose|j: int| 0 <= j < before.len() && before[j] == k as usize;
            if j < at {
                assert(after[j] == k as usize);
            } else {
                assert(after[j + 1] == k as usize);
            }
        }
    }
}

/// The order that sorts `keys`.
pub fn sort_numbers(keys: &[i128]) -> (order: Vec<usize>)
    ensures
        sorts(order@, keys@),
{
    let mut order: Vec<usize> = Vec::new();
    let mut i: usize = 0;
    while i < keys.len()
        invariant
            i <= keys@.len(),
            order@.len() == i,
            forall|a: int| 0 <= a < i ==> (#[trigger] order@[a]) < i,
            forall|k: int| 0 <= k < i ==> #[trigger] order@.contains(k as usize),
            forall|a: int, b: int|
                0 <= a < b < i ==> precedes(keys@, #[trigger] order@[a], #[trigger] order@[b]),
        decreases keys.len() - i,
    {
        let mut lo: usize = 0;
        let mut hi: usize = i;
        while lo < hi
            invariant
                lo <= hi <= i,
                i < keys@.len(),
                order@.len() == i,
                forall|a: int| 0 <= a < i ==> (#[trigger] order@[a]) < i,
                forall|a: int, b: int|
                    0 <= a < b < i ==> precedes(keys@, #[trigger] order@[a], #[trigger] order@[b]),
                forall|a: int| 0 <= a < lo ==> keys@[(#[trigger] order@[a]) as int] <= keys@[i as int],
                forall|a: int| hi <= a < i ==> keys@[(#[trigger] order@[a]) as int] > keys@[i as int],
            decreases hi - lo,
        {
            let mid: usize = lo + (hi - lo) / 2;
            if keys[order[mid]] <= keys[i] {
                assert forall|a: int| 0 <= a < mid + 1 implies keys@[(#[trigger] order@[a]) as int]
                    <= keys@[i as int] by {
                    if a < mid {
                        assert(precedes(keys@, order@[a], order@[mid as int]));
                    }
                }
                lo = mid + 1;
            } else {
                assert forall|a: int| mid <= a < i implies keys@[(#[trigger] order@[a]) as int]
                    > keys@[i as int] by {
                    if a > mid {
                        assert(precedes(keys@, order@[mid as int], order@[a]));
                    }
                }
                hi = mid;
            }
        }
        let ghost before = order@;
        order.insert(lo, i);
        proof {
            lemma_insert_lists(before, lo as int, i);
        }
        assert forall|a: int, b: int| 0 <= a < b < i + 1 implies precedes(
            keys@,
            #[trigger] order@[a],
            #[trigger] order@[b],
        ) by {
            let x = if a < lo {
                a
            } else {
                a - 1
            };
            let y = if b < lo {
                b
            } else {
                b - 1
            };
            if a != lo && b != lo {
                assert(precedes(keys@, before[x], before[y]));
            }
        }
        i = i + 1;
    }
    order
}

/// `a` comes before `b`, or they are equal, when compared character by character.
pub open spec fn text_le(a: Seq<char>, b: Seq<char>) -> bool
    decreases a.len(),
{
    if a.len() == 0 {
        true
    } else if b.len() == 0 {
        false
    } else if a[0] != b[0] {
        a[0] < b[0]
    } else {
        text_le(a.skip(1), b.skip(1))
    }
}

/// Of two texts one comes before the other, and both ways only where they are equal.
pub proof fn lemma_text_le_total(a: Seq<char>, b: Seq<char>)
    ensures
        text_le(a, b) || text_le(b, a),
        text_le(a, b) && text_le(b, a) ==> a == b,
    decreases a.len(),
{
    if a.len() > 0 && b.len() > 0 && a[0] == b[0] {
        lemma_text_le_total(a.skip(1), b.skip(1));
        assert(a == seq![a[0]] + a.skip(1));
        assert(b == seq![b[0]] + b.skip(1));
    } else if a.len() == 0 && b.len() == 0 {
        assert(a == b);
    }
}

/// What comes before a text comes before everything behind it.
pub proof fn lemma_text_le_transitive(a: Seq<char>, b: Seq<char>, c: Seq<char>)
    requires
        text_le(a, b),
        text_le(b, c),
    ensures
        text_le(a, c),
    decreases a.len(),
{
    if a.len() > 0 && b.len() > 0 && c.len() > 0 && a[0] == b[0] && b[0] == c[0] {
        lemma_text_le_transitive(a.skip(1), b.skip(1), c.skip(1));
    }
}

/// Whether `a` comes before `b`, or equals it.
pub fn at_most(a: &[char], b: &[char]) -> (r: bool)
    ensures
        r == text_le(a@, b@),
{
    let mut i: usize = 0;
    assert(a@.skip(0) == a@);
    assert(b@.skip(0) == b@);
    loop
        invariant
            i <= a@.len(),
            i <= b@.len(),
            text_le(a@, b@) == text_le(a@.skip(i as int), b@.skip(i as int)),
        decreases a@.len() - i,
    {
        if i == a.len() {
            return true;
        }
        if i == b.len() {
            return false;
        }
        if a[i] != b[i] {
            return a[i] < b[i];
        }
        assert(a@.skip(i as int).skip(1) == a@.skip(i + 1));
        assert(b@.skip(i as int).skip(1) == b@.skip(i + 1));
        i = i + 1;
    }
}

/// Text `a` comes before text `b`.
pub open spec fn text_precedes(keys: Seq<Seq<char>>, a: usize, b: usize) -> bool {
    text_le(keys[a as int], keys[b as int]) && (keys[a as int] == keys[b as int] ==> a < b)
}

/// `order` lists the numbers below the length of `keys`, each once, by ascending key; equal keys
/// stay in the order in which they stand.
pub open spec fn sorts_texts(order: Seq<usize>, keys: Seq<Seq<char>>) -> bool {
    &&& order.len() == keys.len()
    &&& forall|i: int| 0 <= i < order.len() ==> (#[trigger] order[i]) < keys.len()
    &&& forall|k: int| 0 <= k < keys.len() ==> #[trigger] order.contains(k as usize)
    &&& forall|i: int, j: int|
        0 <= i < j < order.len() ==> text_precedes(keys, #[trigger] order[i], #[trigger] order[j])
}

/// An order lists no item twice.
pub proof fn law_text_order_lists_once(order: Seq<usize>, keys: Seq<Seq<char>>)
    requires
        sorts_texts(order, keys),
    ensures
        order.no_duplicates(),
{
    assert forall|i: int, j: int| 0 <= i < order.len() && 0 <= j < order.len() && i != j implies
        order[i] != order[j] by {
        if i < j {
            assert(text_precedes(keys, order[i], order[j]));
        } else {
            assert(text_precedes(keys, order[j], order[i]));
        }
    }
}

/// `a` comes before `b`, or they are equal, when compared part by part.
pub open spec fn path_le(a: Seq<Seq<char>>, b: Seq<Seq<char>>) -> bool
    decreases a.len(),
{
    if a.len() == 0 {
        true
    } else if b.len() == 0 {
        false
    } else if a[0] != b[0] {
        text_le(a[0], b[0])
    } else {
        path_le(a.skip(1), b.skip(1))
    }
}

/// Of two paths one comes before the other, and both ways only where they are equal.
pub proof fn lemma_path_le_total(a: Seq<Seq<char>>, b: Seq<Seq<char>>)
    ensures
        path_le(a, b) || path_le(b, a),
        path_le(a, b) && path_le(b, a) ==> a == b,
    decreases a.len(),
{
    if a.len() > 0 && b.len() > 0 {
        lemma_text_le_total(a[0], b[0]);
        if a[0] == b[0] {
            lemma_path_le_total(a.skip(1), b.skip(1));
            assert(a == seq![a[0]] + a.skip(1));
            assert(b == seq![b[0]] + b.skip(1));
        }
    } else if a.len() == 0 && b.len() == 0 {
        assert(a == b);
    }
}

/// What comes before a path comes before everything behind it.
pub proof fn lemma_path_le_transitive(a: Seq<Seq<char>>, b: Seq<Seq<char>>, c: Seq<Seq<char>>)
    requires
        path_le(a, b),
        path_le(b, c),
    ensures
        path_le(a, c),
    decreases a.len(),
{
    if a.len() > 0 && b.len() > 0 && c.len() > 0 {
        if a[0] == b[0] && b[0] == c[0] {
            lemma_path_le_transitive(a.skip(1), b.skip(1), c.skip(1));
        } else if a[0] != b[0] && b[0] != c[0] {
            lemma_text_le_transitive(a[0], b[0], c[0]);
            lemma_text_le_total(a[0], b[0]);
        }
    }
}

/// The views of paths.
pub open spec fn path_views(paths: Seq<Vec<String>>) -> Seq<Seq<Seq<char>>> {
    paths.map_values(|p: Vec<String>| views(p@))
}

/// Whether `a` comes before `b`, or equals it.
pub fn path_at_most(a: &[String], b: &[String]) -> (r: bool)
    ensures
        r == path_le(views(a@), views(b@)),
{
    let ghost x = views(a@);
    let ghost y = views(b@);
    let mut i: usize = 0;
    assert(x.skip(0) == x);
    assert(y.skip(0) == y);
    loop
        invariant
            i <= a@.len(),
            i <= b@.len(),
            x == views(a@),
            y == views(b@),
            path_le(x, y) == path_le(x.skip(i as int), y.skip(i as int)),
        decreases a@.len() - i,
    {
        if i == a.len() {
            return true;
        }
        if i == b.len() {
            return false;
        }
        assert(x.skip(i as int)[0] == a@[i as int]@);
        assert(y.skip(i as int)[0] == b@[i as int]@);
        let p = chars_of(a[i].as_str());
        let q = chars_of(b[i].as_str());
        if !same(&p, &q) {
            return at_most(&p, &q);
        }
        assert(x.skip(i as int).skip(1) == x.skip(i + 1));
        assert(y.skip(i as int).skip(1) == y.skip(i + 1));
        i = i + 1;
    }
}

/// Path `a` comes before path `b`.
pub open spec fn path_precedes(keys: Seq<Seq<Seq<char>>>, a: usize, b: usize) -> bool {
    path_le(keys[a as int], keys[b as int]) && (keys[a as int] == keys[b as int] ==> a < b)
}

/// `order` lists the numbers below the length of `keys`, each once, by ascending path; equal paths
/// stay in the order in which they stand.
pub open spec fn sorts_paths(order: Seq<usize>, keys: Seq<Seq<Seq<char>>>) -> bool {
    &&& order.len() == keys.len()
    &&& forall|i: int| 0 <= i < order.len() ==> (#[trigger] order[i]) < keys.len()
    &&& forall|k: int| 0 <= k < keys.len() ==> #[trigger] order.contains(k as usize)
    &&& forall|i: int, j: int|
        0 <= i < j < order.len() ==> path_precedes(keys, #[trigger] order[i], #[trigger] order[j])
}

/// An order lists no path twice.
pub proof fn law_path_order_lists_once(order: Seq<usize>, keys: Seq<Seq<Seq<char>>>)
    requires
        sorts_paths(order, keys),
    ensures
        order.no_duplicates(),
{
    assert forall|i: int, j: int| 0 <= i < order.len() && 0 <= j < order.len() && i != j implies
        order[i] != order[j] by {
        if i < j {
            assert(path_precedes(keys, order[i], order[j]));
        } else {
            assert(path_precedes(keys, order[j], order[i]));
        }
    }
}

/// The order that sorts `keys`.
pub fn sort_paths(keys: &[Vec<String>]) -> (order: Vec<usize>)
    ensures
        sorts_paths(order@, path_views(keys@)),
{
    let ghost paths = path_views(keys@);
    let mut order: Vec<usize> = Vec::new();
    let mut i: usize = 0;
    while i < keys.len()
        invariant
            i <= keys@.len(),
            paths == path_views(keys@),
            order@.len() == i,
            forall|a: int| 0 <= a < i ==> (#[trigger] order@[a]) < i,
            forall|k: int| 0 <= k < i ==> #[trigger] order@.contains(k as usize),
            forall|a: int, b: int|
                0 <= a < b < i ==> path_precedes(paths, #[trigger] order@[a], #[trigger] order@[b]),
        decreases keys.len() - i,
    {
        let mut lo: usize = 0;
        let mut hi: usize = i;
        while lo < hi
            invariant
                lo <= hi <= i,
                i < keys@.len(),
                paths == path_views(keys@),
                order@.len() == i,
                forall|a: int| 0 <= a < i ==> (#[trigger] order@[a]) < i,
                forall|a: int, b: int|
                    0 <= a < b < i ==> path_precedes(
                        paths,
                        #[trigger] order@[a],
                        #[trigger] order@[b],
                    ),
                forall|a: int|
                    0 <= a < lo ==> path_le(paths[(#[trigger] order@[a]) as int], paths[i as int]),
                forall|a: int|
                    hi <= a < i ==> !path_le(paths[(#[trigger] order@[a]) as int], paths[i as int]),
            decreases hi - lo,
        {
            let mid: usize = lo + (hi - lo) / 2;
            let m: usize = order[mid];
            assert(paths[m as int] == views(keys@[m as int]@));
            assert(paths[i as int] == views(keys@[i as int]@));
            if path_at_most(&keys[m], &keys[i]) {
                assert forall|a: int| 0 <= a < mid + 1 implies path_le(
                    paths[(#[trigger] order@[a]) as int],
                    paths[i as int],
                ) by {
                    if a < mid {
                        assert(path_precedes(paths, order@[a], order@[mid as int]));
                        lemma_path_le_transitive(
                            paths[order@[a] as int],
                            paths[m as int],
                            paths[i as int],
                        );
                    }
                }
                lo = mid + 1;
            } else {
                assert forall|a: int| mid <= a < i implies !path_le(
                    paths[(#[trigger] order@[a]) as int],
                    paths[i as int],
                ) by {
                    if a > mid && path_le(paths[order@[a] as int], paths[i as int]) {
                        assert(path_precedes(paths, order@[mid as int], order@[a]));
                        lemma_path_le_transitive(
                            paths[m as int],
                            paths[order@[a] as int],
                            paths[i as int],
                        );
                    }
                }
                hi = mid;
            }
        }
        let ghost before = order@;
        order.insert(lo, i);
        proof {
            lemma_insert_lists(before, lo as int, i);
        }
        assert forall|a: int, b: int| 0 <= a < b < i + 1 implies path_precedes(
            paths,
            #[trigger] order@[a],
            #[trigger] order@[b],
        ) by {
            let x = if a < lo {
                a
            } else {
                a - 1
            };
            let y = if b < lo {
                b
            } else {
                b - 1
            };
            if a != lo && b != lo {
                assert(path_precedes(paths, before[x], before[y]));
            } else if a == lo {
                lemma_path_le_total(paths[before[y] as int], paths[i as int]);
            } else {
                assert(path_le(paths[before[x] as int], paths[i as int]));
            }
        }
        i = i + 1;
    }
    order
}

/// The order that sorts `keys`.
pub fn sort_texts(keys: &[String]) -> (order: Vec<usize>)
    ensures
        sorts_texts(order@, views(keys@)),
{
    let ghost texts = views(keys@);
    let mut paths: Vec<Vec<String>> = Vec::new();
    let mut i: usize = 0;
    while i < keys.len()
        invariant
            i <= keys@.len(),
            texts == views(keys@),
            paths@.len() == i,
            forall|k: int| 0 <= k < i ==> views((#[trigger] paths@[k])@) == seq![texts[k]],
        decreases keys.len() - i,
    {
        let mut path: Vec<String> = Vec::new();
        path.push(keys[i].clone());
        assert(views(path@) =~= seq![texts[i as int]]);
        paths.push(path);
        i = i + 1;
    }
    let order = sort_paths(&paths);
    let ghost all = path_views(paths@);
    assert forall|a: int, b: int| 0 <= a < b < order@.len() implies text_precedes(
        texts,
        #[trigger] order@[a],
        #[trigger] order@[b],
    ) by {
        let (x, y) = (order@[a] as int, order@[b] as int);
        assert(path_precedes(all, order@[a], order@[b]));
        assert(all[x] == views(paths@[x]@) && all[y] == views(paths@[y]@));
        assert(all[x][0] == texts[x] && all[y][0] == texts[y]);
        lemma_text_le_total(texts[x], texts[y]);
    }
    order
}

} // verus!
