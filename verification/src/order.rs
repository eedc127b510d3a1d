//! Sorting that keeps the order of items that rank the same.
use vstd::prelude::*;
use vstd::relations::*;
use vstd::seq_lib::*;

verus! {

/// Whether a relation is a strict weak order: no two items are before each other,
/// and what is not before its neighbour on either side is not before what is not
/// before that.
pub open spec fn strict_weak<T>(before: spec_fn(T, T) -> bool) -> bool {
    &&& forall|a: T, b: T| #![trigger before(a, b)] !(before(a, b) && before(b, a))
    &&& forall|a: T, b: T, c: T|
        #![trigger before(a, b), before(b, c)]
        !before(a, b) && !before(b, c) ==> !before(a, c)
}

/// A way to rank items.
pub trait Ranking<T> {
    /// Which items can be ranked.
    spec fn accepts(&self, item: T) -> bool;

    /// Whether one item ranks strictly before another.
    spec fn before(&self) -> spec_fn(T, T) -> bool;

    /// Ranking is a strict weak order.
    proof fn strict_weak_order(&self)
        ensures
            strict_weak(self.before()),
    ;

    /// Whether one item ranks strictly before another.
    fn is_before(&self, a: &T, b: &T) -> (r: bool)
        requires
            self.accepts(*a),
            self.accepts(*b),
        ensures
            r == (self.before())(*a, *b),
    ;
}

/// The places of `n` items, in order.
pub open spec fn places(n: nat) -> Seq<usize> {
    Seq::new(n, |i: int| i as usize)
}

/// The order of the places of some items: by the rank of the items, and by the
/// places themselves where the items rank the same.
pub open spec fn place_order<T>(items: Seq<T>, before: spec_fn(T, T) -> bool) -> spec_fn(
    usize,
    usize,
) -> bool {
    |i: usize, j: usize|
        before(items[i as int], items[j as int]) || (!before(items[j as int], items[i as int]) && i
            <= j)
}

/// The items that stand at some places.
pub open spec fn at_places<T>(items: Seq<T>, order: Seq<usize>) -> Seq<T> {
    order.map_values(|i: usize| items[i as int])
}

/// The items in the order of their rank. Items that rank the same keep their
/// order.
pub open spec fn ranked<T>(items: Seq<T>, before: spec_fn(T, T) -> bool) -> Seq<T> {
    at_places(items, places(items.len()).sort_by(place_order(items, before)))
}

proof fn lemma_place_order<T>(items: Seq<T>, before: spec_fn(T, T) -> bool)
    requires
        strict_weak(before),
    ensures
        total_ordering(place_order(items, before)),
{
    let le = place_order(items, before);
    assert forall|i: usize| #[trigger] le(i, i) by {
        assert(!before(items[i as int], items[i as int]));
    }
    assert forall|i: usize, j: usize| #[trigger] le(i, j) && #[trigger] le(j, i) implies i == j by {
        assert(!(before(items[i as int], items[j as int]) && before(
            items[j as int],
            items[i as int],
        )));
    }
    assert forall|i: usize, j: usize, k: usize| #[trigger]
        le(i, j) && #[trigger] le(j, k) implies le(i, k) by {
        let (a, b, c) = (items[i as int], items[j as int], items[k as int]);
        let (ab, ba, bc, cb, ac, ca) = (
            before(a, b),
            before(b, a),
            before(b, c),
            before(c, b),
            before(a, c),
            before(c, a),
        );
    }
    assert forall|i: usize, j: usize| #[trigger] le(i, j) || #[trigger] le(j, i) by {}
}

/// The ranked items of a mapped list are the mapped ranked items, where the rank
/// of an item is that of what it is mapped to.
pub proof fn lemma_ranked_map<T, U>(
    items: Seq<T>,
    f: spec_fn(T) -> U,
    before: spec_fn(T, T) -> bool,
    mapped: spec_fn(U, U) -> bool,
)
    requires
        items.len() <= usize::MAX,
        strict_weak(before),
        strict_weak(mapped),
        forall|a: T, b: T| #[trigger] before(a, b) == mapped(f(a), f(b)),
    ensures
        ranked(items, before).map_values(f) == ranked(items.map_values(f), mapped),
{
    broadcast use group_to_multiset_ensures;

    let images = items.map_values(f);
    let le = place_order(items, before);
    let le2 = place_order(images, mapped);
    lemma_place_order(items, before);
    lemma_place_order(images, mapped);
    let all = places(items.len());
    let x = all.sort_by(le);
    let y = all.sort_by(le2);
    all.lemma_sort_by_ensures(le);
    all.lemma_sort_by_ensures(le2);
    assert forall|i: int| 0 <= i < x.len() implies #[trigger] x[i] < items.len() by {
        assert(x.contains(x[i]));
        assert(all.contains(x[i]));
    }
    assert forall|i: int, j: int| 0 <= i < j < x.len() implies #[trigger] le2(x[i], x[j]) by {
        assert(le(x[i], x[j]));
        assert(before(items[x[i] as int], items[x[j] as int]) == mapped(
            images[x[i] as int],
            images[x[j] as int],
        ));
        assert(before(items[x[j] as int], items[x[i] as int]) == mapped(
            images[x[j] as int],
            images[x[i] as int],
        ));
    }
    lemma_sorted_unique(x, y, le2);
    assert(ranked(items, before).map_values(f) =~= ranked(images, mapped));
}

/// The ranked items are the items, in another order, and sorted by rank.
pub proof fn lemma_ranked<T>(items: Seq<T>, before: spec_fn(T, T) -> bool)
    requires
        items.len() <= usize::MAX,
        strict_weak(before),
    ensures
        ranked(items, before).len() == items.len(),
        ranked(items, before).to_multiset() == items.to_multiset(),
        forall|i: int, j: int|
            0 <= i < j < items.len() ==> !before(
                #[trigger] ranked(items, before)[j],
                #[trigger] ranked(items, before)[i],
            ),
{
    let le = place_order(items, before);
    lemma_place_order(items, before);
    let order = places(items.len()).sort_by(le);
    places(items.len()).lemma_sort_by_ensures(le);
    let out = ranked(items, before);
    broadcast use group_to_multiset_ensures;

    assert(order.len() == places(items.len()).len()) by {
        to_multiset_len(order);
        to_multiset_len(places(items.len()));
    }
    assert forall|i: int, j: int| 0 <= i < j < items.len() implies !before(
        #[trigger] out[j],
        #[trigger] out[i],
    ) by {
        assert(le(order[i], order[j]));
    }
    lemma_at_places_multiset(items, order, places(items.len()));
    assert(at_places(items, places(items.len())) =~= items);
}

proof fn lemma_at_places_multiset<T>(items: Seq<T>, a: Seq<usize>, b: Seq<usize>)
    requires
        a.to_multiset() == b.to_multiset(),
    ensures
        at_places(items, a).to_multiset() == at_places(items, b).to_multiset(),
    decreases a.len(),
{
    broadcast use group_to_multiset_ensures;
    broadcast use vstd::multiset::group_multiset_axioms;

    to_multiset_len(a);
    to_multiset_len(b);
    if a.len() > 0 {
        let x = a.last();
        assert(a.contains(x));
        assert(b.to_multiset().count(x) > 0);
        assert(b.contains(x));
        let k = b.index_of(x);
        let a2 = a.drop_last();
        let b2 = b.remove(k);
        assert(a =~= a2.push(x));
        assert(a2.to_multiset() =~= a.to_multiset().remove(x));
        assert(b2.to_multiset() =~= b.to_multiset().remove(x));
        lemma_at_places_multiset(items, a2, b2);
        assert(at_places(items, a) =~= at_places(items, a2).push(items[x as int]));
        assert(at_places(items, b2) =~= at_places(items, b).remove(k));
        let mb = at_places(items, b).to_multiset();
        assert(at_places(items, b)[k] == items[x as int]);
        assert(mb.count(items[x as int]) > 0) by {
            assert(at_places(items, b).contains(items[x as int]));
        }
        assert(mb =~= mb.remove(items[x as int]).insert(items[x as int]));
    } else {
        assert(a =~= b);
    }
}

/// Merges two sorted lists of places, all of the first in front of all of the
/// second.
fn merge<T, R: Ranking<T>>(
    ranking: &R,
    items: &Vec<T>,
    left: &Vec<usize>,
    right: &Vec<usize>,
) -> (out: Vec<usize>)
    requires
        forall|i: int| 0 <= i < items@.len() ==> ranking.accepts(#[trigger] items@[i]),
        forall|i: int| 0 <= i < left@.len() ==> #[trigger] left@[i] < items@.len(),
        forall|i: int| 0 <= i < right@.len() ==> #[trigger] right@[i] < items@.len(),
        forall|i: int, j: int|
            0 <= i < left@.len() && 0 <= j < right@.len() ==> #[trigger] left@[i]
                < #[trigger] right@[j],
        sorted_by(left@, place_order(items@, ranking.before())),
        sorted_by(right@, place_order(items@, ranking.before())),
    ensures
        sorted_by(out@, place_order(items@, ranking.before())),
        out@.to_multiset() == left@.to_multiset().add(right@.to_multiset()),
{
    let ghost le = place_order(items@, ranking.before());
    let mut out: Vec<usize> = Vec::new();
    let mut i: usize = 0;
    let mut j: usize = 0;
    proof {
        broadcast use group_to_multiset_ensures;
        broadcast use vstd::multiset::group_multiset_axioms;

        ranking.strict_weak_order();
        lemma_place_order(items@, ranking.before());
        assert(left@.skip(0) =~= left@);
        assert(right@.skip(0) =~= right@);
        assert(out@.to_multiset().add(left@.to_multiset()).add(right@.to_multiset())
            =~= left@.to_multiset().add(right@.to_multiset()));
    }
    while i < left.len() || j < right.len()
        invariant
            le == place_order(items@, ranking.before()),
            total_ordering(le),
            strict_weak(ranking.before()),
            i <= left@.len(),
            j <= right@.len(),
            forall|i: int| 0 <= i < items@.len() ==> ranking.accepts(#[trigger] items@[i]),
            forall|i: int| 0 <= i < left@.len() ==> #[trigger] left@[i] < items@.len(),
            forall|i: int| 0 <= i < right@.len() ==> #[trigger] right@[i] < items@.len(),
            forall|i: int, j: int|
                0 <= i < left@.len() && 0 <= j < right@.len() ==> #[trigger] left@[i]
                    < #[trigger] right@[j],
            sorted_by(left@, le),
            sorted_by(right@, le),
            sorted_by(out@, le),
            forall|k: int, m: int|
                0 <= k < out@.len() && i <= m < left@.len() ==> le(
                    #[trigger] out@[k],
                    #[trigger] left@[m],
                ),
            forall|k: int, m: int|
                0 <= k < out@.len() && j <= m < right@.len() ==> le(
                    #[trigger] out@[k],
                    #[trigger] right@[m],
                ),
            out@.to_multiset().add(left@.skip(i as int).to_multiset()).add(
                right@.skip(j as int).to_multiset(),
            ) == left@.to_multiset().add(right@.to_multiset()),
        decreases (left.len() - i) + (right.len() - j),
    {
        let take_left = if i == left.len() {
            false
        } else if j == right.len() {
            true
        } else {
            !ranking.is_before(&items[right[j]], &items[left[i]])
        };
        let ghost before = out@;
        let ghost l = left@.skip(i as int);
        let ghost r = right@.skip(j as int);
        if take_left {
            let x: usize = left[i];
            proof {
                broadcast use group_to_multiset_ensures;
                broadcast use vstd::multiset::group_multiset_axioms;

                if j < right@.len() {
                    assert(le(x, right@[j as int]));
                    assert forall|m: int| j <= m < right@.len() implies le(
                        x,
                        #[trigger] right@[m],
                    ) by {
                        if m > j {
                            assert(le(right@[j as int], right@[m]));
                        }
                    }
                }
                assert forall|m: int| i + 1 <= m < left@.len() implies le(x, #[trigger] left@[m]) by {
                    assert(le(left@[i as int], left@[m]));
                }
                assert(l =~= seq![x] + left@.skip(i + 1));
                lemma_multiset_commutative(seq![x], left@.skip(i + 1));
                lemma_one(x);
                assert(before.push(x).to_multiset().add(left@.skip(i + 1).to_multiset()).add(
                    r.to_multiset(),
                ) =~= before.to_multiset().add(l.to_multiset()).add(r.to_multiset()));
            }
            out.push(x);
            i += 1;
        } else {
            let x: usize = right[j];
            proof {
                broadcast use group_to_multiset_ensures;
                broadcast use vstd::multiset::group_multiset_axioms;

                if i < left@.len() {
                    assert(le(x, left@[i as int]));
                    assert forall|m: int| i <= m < left@.len() implies le(x, #[trigger] left@[m]) by {
                        if m > i {
                            assert(le(left@[i as int], left@[m]));
                        }
                    }
                }
                assert forall|m: int| j + 1 <= m < right@.len() implies le(
                    x,
                    #[trigger] right@[m],
                ) by {
                    assert(le(right@[j as int], right@[m]));
                }
                assert(r =~= seq![x] + right@.skip(j + 1));
                lemma_multiset_commutative(seq![x], right@.skip(j + 1));
                lemma_one(x);
                assert(before.push(x).to_multiset().add(l.to_multiset()).add(
                    right@.skip(j + 1).to_multiset(),
                ) =~= before.to_multiset().add(l.to_multiset()).add(r.to_multiset()));
            }
            out.push(x);
            j += 1;
        }
    }
    proof {
        broadcast use group_to_multiset_ensures;
        broadcast use vstd::multiset::group_multiset_axioms;

        assert(left@.skip(i as int) =~= Seq::<usize>::empty());
        assert(right@.skip(j as int) =~= Seq::<usize>::empty());
        assert(out@.to_multiset().add(left@.skip(i as int).to_multiset()).add(
            right@.skip(j as int).to_multiset(),
        ) =~= out@.to_multiset());
    }
    out
}

proof fn lemma_one(x: usize)
    ensures
        seq![x].to_multiset() == vstd::multiset::Multiset::<usize>::empty().insert(x),
{
    broadcast use group_to_multiset_ensures;

    assert(seq![x] =~= Seq::<usize>::empty().push(x));
    assert(Seq::<usize>::empty().to_multiset() =~= vstd::multiset::Multiset::<usize>::empty());
}

/// The places from `from` up to `to`, in the order of the rank of their items.
fn sort_places<T, R: Ranking<T>>(
    ranking: &R,
    items: &Vec<T>,
    from: usize,
    to: usize,
) -> (out: Vec<usize>)
    requires
        from <= to <= items@.len(),
        forall|i: int| 0 <= i < items@.len() ==> ranking.accepts(#[trigger] items@[i]),
    ensures
        sorted_by(out@, place_order(items@, ranking.before())),
        out@.to_multiset() == places(items@.len()).subrange(from as int, to as int).to_multiset(),
        forall|i: int| 0 <= i < out@.len() ==> from <= #[trigger] out@[i] < to,
    decreases to - from,
{
    let ghost all = places(items@.len());
    if to - from <= 1 {
        let mut out: Vec<usize> = Vec::new();
        if from < to {
            out.push(from);
        }
        proof {
            let size: usize = items.len();
            assert(out@ =~= all.subrange(from as int, to as int));
        }
        out
    } else {
        let mid: usize = from + (to - from) / 2;
        let left = sort_places(ranking, items, from, mid);
        let right = sort_places(ranking, items, mid, to);
        let out = merge(ranking, items, &left, &right);
        proof {
            broadcast use group_to_multiset_ensures;
            broadcast use vstd::multiset::group_multiset_axioms;

            let a = all.subrange(from as int, mid as int);
            let b = all.subrange(mid as int, to as int);
            assert(all.subrange(from as int, to as int) =~= a + b);
            lemma_multiset_commutative(a, b);
            assert forall|i: int| 0 <= i < out@.len() implies from <= #[trigger] out@[i] < to by {
                assert(out@.contains(out@[i]));
                assert(out@.to_multiset().count(out@[i]) > 0);
                assert(left@.contains(out@[i]) || right@.contains(out@[i]));
            }
        }
        out
    }
}

/// The places of some items, in the order of the rank of the items.
pub fn sorted_places<T, R: Ranking<T>>(ranking: &R, items: &Vec<T>) -> (out: Vec<usize>)
    requires
        forall|i: int| 0 <= i < items@.len() ==> ranking.accepts(#[trigger] items@[i]),
    ensures
        out@ == places(items@.len()).sort_by(place_order(items@, ranking.before())),
        out@.len() == items@.len(),
        forall|i: int| 0 <= i < out@.len() ==> #[trigger] out@[i] < items@.len(),
        at_places(items@, out@) == ranked(items@, ranking.before()),
{
    let size: usize = items.len();
    let out = sort_places(ranking, items, 0, size);
    proof {
        let le = place_order(items@, ranking.before());
        let all = places(items@.len());
        ranking.strict_weak_order();
        lemma_place_order(items@, ranking.before());
        all.lemma_sort_by_ensures(le);
        assert(all.subrange(0, size as int) =~= all);
        lemma_sorted_unique(out@, all.sort_by(le), le);
        to_multiset_len(out@);
        to_multiset_len(all);
    }
    out
}

/// Items of which a copy is the same item.
pub trait Duplicate: Sized {
    fn duplicate(&self) -> (r: Self)
        ensures
            r == *self,
    ;
}

/// The items in the order of their rank.
pub fn sort_items<T: Duplicate, R: Ranking<T>>(ranking: &R, items: &Vec<T>) -> (out: Vec<T>)
    requires
        forall|i: int| 0 <= i < items@.len() ==> ranking.accepts(#[trigger] items@[i]),
    ensures
        out@ == ranked(items@, ranking.before()),
        out@.len() == items@.len(),
{
    let order = sorted_places(ranking, items);
    let mut out: Vec<T> = Vec::new();
    let mut i: usize = 0;
    while i < order.len()
        invariant
            i <= order@.len(),
            forall|i: int| 0 <= i < order@.len() ==> #[trigger] order@[i] < items@.len(),
            out@ == at_places(items@, order@.take(i as int)),
        decreases order.len() - i,
    {
        out.push(items[order[i]].duplicate());
        i += 1;
        proof {
            assert(order@.take(i as int) =~= order@.take(i - 1).push(order@[i - 1]));
            assert(out@ =~= at_places(items@, order@.take(i as int)));
        }
    }
    proof {
        assert(order@.take(order@.len() as int) =~= order@);
    }
    out
}

/// Whether no item of a list ranks before an earlier one.
pub open spec fn in_rank<T>(list: Seq<T>, before: spec_fn(T, T) -> bool) -> bool {
    forall|i: int, j: int|
        0 <= i < j < list.len() ==> !before(#[trigger] list[j], #[trigger] list[i])
}

/// Where an item goes in a list: behind everything that does not rank after it.
pub open spec fn slot<T>(list: Seq<T>, x: T, before: spec_fn(T, T) -> bool) -> int
    decreases list.len(),
{
    if list.len() == 0 {
        0
    } else if before(x, list.last()) {
        slot(list.drop_last(), x, before)
    } else {
        list.len() as int
    }
}

proof fn lemma_slot<T>(list: Seq<T>, x: T, before: spec_fn(T, T) -> bool)
    requires
        strict_weak(before),
        in_rank(list, before),
    ensures
        0 <= slot(list, x, before) <= list.len(),
        forall|i: int| 0 <= i < slot(list, x, before) ==> !before(x, #[trigger] list[i]),
        forall|i: int| slot(list, x, before) <= i < list.len() ==> before(x, #[trigger] list[i]),
    decreases list.len(),
{
    if list.len() > 0 {
        let rest = list.drop_last();
        if before(x, list.last()) {
            assert forall|i: int, j: int| 0 <= i < j < rest.len() implies !before(
                #[trigger] rest[j],
                #[trigger] rest[i],
            ) by {
                assert(!before(list[j], list[i]));
            }
            lemma_slot(rest, x, before);
            assert forall|i: int| 0 <= i < slot(list, x, before) implies !before(
                x,
                #[trigger] list[i],
            ) by {
                assert(rest[i] == list[i]);
            }
            assert forall|i: int| slot(list, x, before) <= i < list.len() implies before(
                x,
                #[trigger] list[i],
            ) by {
                if i < rest.len() {
                    assert(rest[i] == list[i]);
                }
            }
        } else {
            let z = list.last();
            assert forall|i: int| 0 <= i < list.len() implies !before(x, #[trigger] list[i]) by {
                if i < list.len() - 1 {
                    assert(!before(list[list.len() - 1], list[i]));
                    assert(!before(x, z) && !before(z, list[i]));
                }
            }
        }
    }
}

/// A list that is in the order of rank stays as it is when it is ranked.
proof fn lemma_ranked_stays<T>(list: Seq<T>, before: spec_fn(T, T) -> bool)
    requires
        list.len() <= usize::MAX,
        strict_weak(before),
        in_rank(list, before),
    ensures
        ranked(list, before) == list,
{
    let le = place_order(list, before);
    let all = places(list.len());
    lemma_place_order(list, before);
    all.lemma_sort_by_ensures(le);
    assert forall|i: int, j: int| 0 <= i < j < all.len() implies #[trigger] le(all[i], all[j]) by {
        assert(!before(list[j], list[i]));
    }
    lemma_sorted_unique(all, all.sort_by(le), le);
    assert(ranked(list, before) =~= list);
}

/// Ranking a list with one more item puts that item into its slot.
proof fn lemma_ranked_push<T>(items: Seq<T>, x: T, before: spec_fn(T, T) -> bool)
    requires
        items.len() < usize::MAX,
        strict_weak(before),
    ensures
        ranked(items.push(x), before) == ranked(items, before).insert(
            slot(ranked(items, before), x, before),
            x,
        ),
{
    broadcast use group_to_multiset_ensures;

    let longer = items.push(x);
    let list = ranked(items, before);
    let le = place_order(items, before);
    let le2 = place_order(longer, before);
    let all = places(items.len());
    let all2 = places(longer.len());
    let p = all.sort_by(le);
    let q = all2.sort_by(le2);
    let last = items.len() as usize;
    lemma_place_order(items, before);
    lemma_place_order(longer, before);
    all.lemma_sort_by_ensures(le);
    all2.lemma_sort_by_ensures(le2);
    lemma_ranked(items, before);
    let k = slot(list, x, before);
    lemma_slot(list, x, before);
    let c = p.insert(k, last);
    assert(p.len() == items.len());
    assert forall|i: int| 0 <= i < p.len() implies #[trigger] p[i] < items.len() && list[i]
        == items[p[i] as int] by {
        assert(p.contains(p[i]));
        assert(all.contains(p[i]));
    }
    assert forall|i: int, j: int| 0 <= i < j < c.len() implies #[trigger] le2(c[i], c[j]) by {
        let i1 = if i < k {
            i
        } else {
            i - 1
        };
        let j1 = if j < k {
            j
        } else {
            j - 1
        };
        if i == k {
            assert(c[i] == last && c[j] == p[j1]);
            assert(before(x, list[j1]));
        } else if j == k {
            assert(c[i] == p[i1] && c[j] == last);
            assert(!before(x, list[i1]));
        } else {
            assert(c[i] == p[i1] && c[j] == p[j1]);
            assert(le(p[i1], p[j1]));
        }
    }
    assert(all2 =~= all.push(last));
    assert(c.to_multiset() =~= all2.to_multiset()) by {
        to_multiset_insert(p, k, last);
        assert(p.to_multiset() =~= all.to_multiset());
    }
    lemma_sorted_unique(c, q, le2);
    assert(ranked(longer, before) =~= list.insert(k, x)) by {
        assert forall|i: int| 0 <= i < c.len() implies #[trigger] at_places(longer, c)[i]
            == list.insert(k, x)[i] by {
            if i < k {
                assert(c[i] == p[i]);
            } else if i > k {
                assert(c[i] == p[i - 1]);
            }
        }
    }
}

/// The best of some items, up to a number of them.
pub open spec fn best<T>(items: Seq<T>, before: spec_fn(T, T) -> bool, n: nat) -> Seq<T> {
    let list = ranked(items, before);
    if list.len() <= n {
        list
    } else {
        list.take(n as int)
    }
}

/// What has no place among the best makes no room for another item.
proof fn lemma_best_push<T>(items: Seq<T>, x: T, before: spec_fn(T, T) -> bool, n: nat)
    requires
        items.len() < usize::MAX,
        strict_weak(before),
    ensures
        best(items.push(x), before, n) == {
            let kept = best(items, before, n);
            let list = kept.insert(slot(kept, x, before), x);
            if list.len() <= n {
                list
            } else {
                list.take(n as int)
            }
        },
{
    let list = ranked(items, before);
    let kept = best(items, before, n);
    lemma_ranked_push(items, x, before);
    lemma_ranked(items, before);
    lemma_ranked(items.push(x), before);
    lemma_slot(list, x, before);
    assert(in_rank(kept, before)) by {
        assert forall|i: int, j: int| 0 <= i < j < kept.len() implies !before(
            #[trigger] kept[j],
            #[trigger] kept[i],
        ) by {
            assert(!before(list[j], list[i]));
        }
    }
    lemma_slot(kept, x, before);
    let k = slot(list, x, before);
    let m = slot(kept, x, before);
    if list.len() > n {
        if k <= n {
            assert(m == k) by {
                if m < k {
                    assert(before(x, kept[m]));
                    assert(!before(x, list[m]));
                }
                if k < m {
                    assert(!before(x, kept[k]));
                    assert(before(x, list[k]));
                }
            }
        } else {
            assert(m == n) by {
                if m < n {
                    assert(before(x, kept[m]));
                    assert(!before(x, list[m]));
                }
            }
        }
        assert(list.insert(k, x).take(n as int) =~= kept.insert(m, x).take(n as int));
    }
}

/// To cut a list to its best items in between loses nothing: the best of what is left
/// and of more items are the best of all.
pub proof fn lemma_best_in_between<T>(
    first: Seq<T>,
    more: Seq<T>,
    before: spec_fn(T, T) -> bool,
    n: nat,
)
    requires
        first.len() + more.len() <= usize::MAX,
        strict_weak(before),
    ensures
        best(best(first, before, n) + more, before, n) == best(first + more, before, n),
    decreases more.len(),
{
    let kept = best(first, before, n);
    let list = ranked(first, before);
    lemma_ranked(first, before);
    if more.len() == 0 {
        assert(in_rank(kept, before)) by {
            assert forall|i: int, j: int| 0 <= i < j < kept.len() implies !before(
                #[trigger] kept[j],
                #[trigger] kept[i],
            ) by {
                assert(!before(list[j], list[i]));
            }
        }
        lemma_ranked_stays(kept, before);
        assert(kept + more =~= kept);
        assert(first + more =~= first);
    } else {
        let rest = more.drop_last();
        let x = more.last();
        lemma_best_in_between(first, rest, before, n);
        assert(kept + more =~= (kept + rest).push(x));
        assert(first + more =~= (first + rest).push(x));
        lemma_best_push(kept + rest, x, before, n);
        lemma_best_push(first + rest, x, before, n);
    }
}

/// Every ranked item is one of the items, and items that differ in some respect still do
/// when they are ranked.
pub proof fn lemma_ranked_distinct<T, K>(
    items: Seq<T>,
    before: spec_fn(T, T) -> bool,
    key: spec_fn(T) -> K,
)
    requires
        items.len() <= usize::MAX,
        strict_weak(before),
        forall|i: int, j: int|
            0 <= i < j < items.len() ==> key(#[trigger] items[i]) != key(#[trigger] items[j]),
    ensures
        ranked(items, before).len() == items.len(),
        forall|i: int|
            0 <= i < items.len() ==> items.contains(#[trigger] ranked(items, before)[i]),
        forall|i: int, j: int|
            0 <= i < j < items.len() ==> key(#[trigger] ranked(items, before)[i]) != key(
                #[trigger] ranked(items, before)[j],
            ),
{
    broadcast use group_to_multiset_ensures;

    let le = place_order(items, before);
    let all = places(items.len());
    let order = all.sort_by(le);
    lemma_place_order(items, before);
    all.lemma_sort_by_ensures(le);
    lemma_ranked(items, before);
    let out = ranked(items, before);
    assert forall|i: int| 0 <= i < order.len() implies #[trigger] order[i] < items.len() by {
        assert(order.contains(order[i]));
        assert(all.contains(order[i]));
    }
    all.lemma_multiset_has_no_duplicates();
    assert(all.no_duplicates());
    order.lemma_multiset_has_no_duplicates_conv();
    assert forall|i: int| 0 <= i < items.len() implies items.contains(#[trigger] out[i]) by {
        assert(out[i] == items[order[i] as int]);
    }
    assert forall|i: int, j: int| 0 <= i < j < items.len() implies key(#[trigger] out[i]) != key(
        #[trigger] out[j],
    ) by {
        assert(order[i] != order[j]);
        let (a, b) = (order[i] as int, order[j] as int);
        assert(out[i] == items[a] && out[j] == items[b]);
        if a < b {
            assert(key(items[a]) != key(items[b]));
        } else {
            assert(key(items[b]) != key(items[a]));
        }
    }
}

} // verus!
