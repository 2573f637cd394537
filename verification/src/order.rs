//! Stable sorting: equal keys keep the order they came in.
use vstd::prelude::*;

verus! {

/// A key that things are sorted by. Two keys may rank alike without being the
/// same.
pub trait Ranked: DeepView + Sized {
    spec fn at_most(a: Self::V, b: Self::V) -> bool;

    proof fn rank_is_total(a: Self::V, b: Self::V)
        ensures
            Self::at_most(a, b) || Self::at_most(b, a),
    ;

    proof fn rank_is_transitive(a: Self::V, b: Self::V, c: Self::V)
        requires
            Self::at_most(a, b),
            Self::at_most(b, c),
        ensures
            Self::at_most(a, c),
    ;

    fn is_at_most(&self, other: &Self) -> (r: bool)
        ensures
            r == Self::at_most(self.deep_view(), other.deep_view()),
    ;
}

/// Whether the `i`th thing comes out before the `j`th: a lower key first, and
/// among keys that rank alike the one that came in first.
pub open spec fn goes_before<T: Ranked>(keys: Seq<T::V>, i: int, j: int) -> bool {
    &&& T::at_most(keys[i], keys[j])
    &&& !T::at_most(keys[j], keys[i]) || i < j
}

/// Whether `order` lists every position of `keys` once, each before those it
/// goes before.
pub open spec fn is_order<T: Ranked>(keys: Seq<T::V>, order: Seq<int>) -> bool {
    &&& order.len() == keys.len()
    &&& forall|p: int| 0 <= p < order.len() ==> 0 <= #[trigger] order[p] < keys.len()
    &&& forall|i: int| 0 <= i < keys.len() ==> #[trigger] order.contains(i)
    &&& forall|p: int, q: int|
        0 <= p < q < order.len() ==> goes_before::<T>(keys, #[trigger] order[p], #[trigger] order[q])
}

/// The positions of `keys` in sorted order.
pub open spec fn order_of<T: Ranked>(keys: Seq<T::V>) -> Seq<int> {
    choose|order: Seq<int>| is_order::<T>(keys, order)
}

/// The things at the listed positions.
pub open spec fn picked<A>(things: Seq<A>, order: Seq<int>) -> Seq<A> {
    Seq::new(order.len(), |p: int| things[order[p]])
}

/// The things, sorted by keys that run alongside them.
pub open spec fn sorted_by<A, T: Ranked>(things: Seq<A>, keys: Seq<T::V>) -> Seq<A> {
    picked(things, order_of::<T>(keys))
}

proof fn lemma_goes_before_is_strict<T: Ranked>(keys: Seq<T::V>, i: int, j: int)
    ensures
        !(goes_before::<T>(keys, i, j) && goes_before::<T>(keys, j, i)),
        i != j ==> goes_before::<T>(keys, i, j) || goes_before::<T>(keys, j, i),
{
    T::rank_is_total(keys[i], keys[j]);
}

proof fn lemma_goes_before_is_transitive<T: Ranked>(keys: Seq<T::V>, i: int, j: int, k: int)
    requires
        goes_before::<T>(keys, i, j),
        goes_before::<T>(keys, j, k),
    ensures
        goes_before::<T>(keys, i, k),
{
    T::rank_is_transitive(keys[i], keys[j], keys[k]);
    if T::at_most(keys[k], keys[i]) {
        T::rank_is_transitive(keys[k], keys[i], keys[j]);
        T::rank_is_transitive(keys[j], keys[k], keys[i]);
    }
}

/// There is only one sorted order of given keys.
pub proof fn sorted_order_is_unique<T: Ranked>(keys: Seq<T::V>, a: Seq<int>, b: Seq<int>)
    requires
        is_order::<T>(keys, a),
        is_order::<T>(keys, b),
    ensures
        a == b,
{
    if a != b {
        assert(a.len() == b.len());
        assert(exists|p: int| 0 <= p < a.len() && a[p] != b[p]) by {
            if forall|p: int| 0 <= p < a.len() ==> a[p] == b[p] {
                assert(a =~= b);
            }
        }
        let some = choose|p: int| 0 <= p < a.len() && a[p] != b[p];
        let p = lemma_first_difference(a, b, some);
        assert(b.contains(a[p]));
        assert(a.contains(b[p]));
        let q = choose|q: int| 0 <= q < b.len() && b[q] == a[p];
        let r = choose|r: int| 0 <= r < a.len() && a[r] == b[p];
        if q < p {
            assert(a[q] == b[q]);
            assert(goes_before::<T>(keys, a[q], a[p]));
            lemma_goes_before_is_strict::<T>(keys, a[p], a[p]);
        }
        if r < p {
            assert(a[r] == b[r]);
            assert(goes_before::<T>(keys, b[r], b[p]));
            lemma_goes_before_is_strict::<T>(keys, b[p], b[p]);
        }
        assert(goes_before::<T>(keys, b[p], b[q]));
        assert(goes_before::<T>(keys, a[p], a[r]));
        lemma_goes_before_is_strict::<T>(keys, a[p], b[p]);
    }
}

proof fn lemma_first_difference(a: Seq<int>, b: Seq<int>, some: int) -> (p: int)
    requires
        a.len() == b.len(),
        0 <= some < a.len(),
        a[some] != b[some],
    ensures
        0 <= p <= some,
        a[p] != b[p],
        forall|i: int| 0 <= i < p ==> a[i] == b[i],
    decreases some,
{
    if exists|i: int| 0 <= i < some && a[i] != b[i] {
        let earlier = choose|i: int| 0 <= i < some && a[i] != b[i];
        lemma_first_difference(a, b, earlier)
    } else {
        some
    }
}

pub open spec fn as_ints(s: Seq<usize>) -> Seq<int> {
    Seq::new(s.len(), |p: int| s[p] as int)
}

/// Whether `part` lists the positions from `lo` to `hi` once each, in order.
spec fn orders_range<T: Ranked>(keys: Seq<T::V>, part: Seq<int>, lo: int, hi: int) -> bool {
    &&& part.len() == hi - lo
    &&& forall|p: int| 0 <= p < part.len() ==> lo <= #[trigger] part[p] < hi
    &&& forall|i: int| lo <= i < hi ==> #[trigger] part.contains(i)
    &&& forall|p: int, q: int|
        0 <= p < q < part.len() ==> goes_before::<T>(keys, #[trigger] part[p], #[trigger] part[q])
}

fn merge<T: Ranked>(
    keys: &Vec<T>,
    left: &Vec<usize>,
    right: &Vec<usize>,
    lo: usize,
    mid: usize,
    hi: usize,
) -> (r: Vec<usize>)
    requires
        lo <= mid <= hi <= keys.len(),
        orders_range::<T>(keys.deep_view(), as_ints(left@), lo as int, mid as int),
        orders_range::<T>(keys.deep_view(), as_ints(right@), mid as int, hi as int),
    ensures
        orders_range::<T>(keys.deep_view(), as_ints(r@), lo as int, hi as int),
{
    let mut out: Vec<usize> = Vec::new();
    let mut i: usize = 0;
    let mut j: usize = 0;
    let ghost k = keys.deep_view();
    let ghost l = as_ints(left@);
    let ghost r = as_ints(right@);
    while i < left.len() || j < right.len()
        invariant
            lo <= mid <= hi <= keys.len(),
            k == keys.deep_view(),
            l == as_ints(left@),
            r == as_ints(right@),
            orders_range::<T>(k, l, lo as int, mid as int),
            orders_range::<T>(k, r, mid as int, hi as int),
            i <= left.len(),
            j <= right.len(),
            out.len() == i + j,
            forall|p: int| 0 <= p < out.len() ==> lo <= #[trigger] out@[p] < hi,
            forall|p: int, q: int|
                0 <= p < q < out.len() ==> goes_before::<T>(
                    k,
                    #[trigger] out@[p] as int,
                    #[trigger] out@[q] as int,
                ),
            forall|p: int, a: int|
                0 <= p < out.len() && i <= a < left.len() ==> goes_before::<T>(
                    k,
                    #[trigger] out@[p] as int,
                    #[trigger] l[a],
                ),
            forall|p: int, b: int|
                0 <= p < out.len() && j <= b < right.len() ==> goes_before::<T>(
                    k,
                    #[trigger] out@[p] as int,
                    #[trigger] r[b],
                ),
            forall|a: int| 0 <= a < i ==> out@.contains(#[trigger] left@[a]),
            forall|b: int| 0 <= b < j ==> out@.contains(#[trigger] right@[b]),
        decreases left.len() - i + right.len() - j,
    {
        let ghost before = out@;
        let take_left: bool = if i == left.len() {
            false
        } else if j == right.len() {
            true
        } else {
            assert(l[i as int] == left@[i as int] && r[j as int] == right@[j as int]);
            keys[left[i]].is_at_most(&keys[right[j]])
        };
        if take_left {
            assert(l[i as int] == left@[i as int]);
            out.push(left[i]);
            proof {
                assert forall|b: int| j <= b < right.len() implies goes_before::<T>(
                    k,
                    l[i as int],
                    #[trigger] r[b],
                ) by {
                    assert(goes_before::<T>(k, l[i as int], r[j as int])) by {
                        assert(l[i as int] < mid <= r[j as int]);
                    }
                    if b > j {
                        lemma_goes_before_is_transitive::<T>(k, l[i as int], r[j as int], r[b]);
                    }
                }
                assert forall|a: int| 0 <= a < i + 1 implies out@.contains(
                    #[trigger] left@[a],
                ) by {
                    if a < i {
                        let w = choose|w: int| 0 <= w < before.len() && before[w] == left@[a];
                        assert(out@[w] == left@[a]);
                    } else {
                        assert(out@[before.len() as int] == left@[a]);
                    }
                }
                assert forall|b: int| 0 <= b < j implies out@.contains(#[trigger] right@[b]) by {
                    let w = choose|w: int| 0 <= w < before.len() && before[w] == right@[b];
                    assert(out@[w] == right@[b]);
                }
            }
            i = i + 1;
        } else {
            assert(r[j as int] == right@[j as int]);
            out.push(right[j]);
            proof {
                assert forall|a: int| i <= a < left.len() implies goes_before::<T>(
                    k,
                    r[j as int],
                    #[trigger] l[a],
                ) by {
                    assert(goes_before::<T>(k, r[j as int], l[i as int])) by {
                        T::rank_is_total(k[l[i as int]], k[r[j as int]]);
                    }
                    if a > i {
                        lemma_goes_before_is_transitive::<T>(k, r[j as int], l[i as int], l[a]);
                    }
                }
                assert forall|a: int| 0 <= a < i implies out@.contains(#[trigger] left@[a]) by {
                    let w = choose|w: int| 0 <= w < before.len() && before[w] == left@[a];
                    assert(out@[w] == left@[a]);
                }
                assert forall|b: int| 0 <= b < j + 1 implies out@.contains(
                    #[trigger] right@[b],
                ) by {
                    if b < j {
                        let w = choose|w: int| 0 <= w < before.len() && before[w] == right@[b];
                        assert(out@[w] == right@[b]);
                    } else {
                        assert(out@[before.len() as int] == right@[b]);
                    }
                }
            }
            j = j + 1;
        }
    }
    proof {
        let o = as_ints(out@);
        assert forall|x: int| lo <= x < hi implies #[trigger] o.contains(x) by {
            if x < mid {
                assert(l.contains(x));
                let a = choose|a: int| 0 <= a < l.len() && l[a] == x;
                assert(out@.contains(left@[a]));
                let w = choose|w: int| 0 <= w < out.len() && out@[w] == left@[a];
                assert(o[w] == x);
            } else {
                assert(r.contains(x));
                let b = choose|b: int| 0 <= b < r.len() && r[b] == x;
                assert(out@.contains(right@[b]));
                let w = choose|w: int| 0 <= w < out.len() && out@[w] == right@[b];
                assert(o[w] == x);
            }
        }
    }
    out
}

fn rank_range<T: Ranked>(keys: &Vec<T>, lo: usize, hi: usize) -> (r: Vec<usize>)
    requires
        lo <= hi <= keys.len(),
    ensures
        orders_range::<T>(keys.deep_view(), as_ints(r@), lo as int, hi as int),
    decreases hi - lo,
{
    let mut out: Vec<usize> = Vec::new();
    if hi - lo == 0 {
        return out;
    }
    if hi - lo == 1 {
        out.push(lo);
        assert(as_ints(out@)[0] == lo);
        return out;
    }
    let mid: usize = lo + (hi - lo) / 2;
    let left: Vec<usize> = rank_range(keys, lo, mid);
    let right: Vec<usize> = rank_range(keys, mid, hi);
    merge(keys, &left, &right, lo, mid, hi)
}

/// The positions of the keys in sorted order.
pub fn ranking<T: Ranked>(keys: &Vec<T>) -> (r: Vec<usize>)
    ensures
        is_order::<T>(keys.deep_view(), as_ints(r@)),
        as_ints(r@) == order_of::<T>(keys.deep_view()),
{
    let r: Vec<usize> = rank_range(keys, 0, keys.len());
    proof {
        let found = as_ints(r@);
        assert(is_order::<T>(keys.deep_view(), found));
        sorted_order_is_unique::<T>(keys.deep_view(), found, order_of::<T>(keys.deep_view()));
    }
    r
}

/// Keys can always be put in order.
pub proof fn sorted_order_exists<T: Ranked>(keys: Seq<T::V>)
    ensures
        is_order::<T>(keys, order_of::<T>(keys)),
    decreases keys.len(),
{
    if keys.len() == 0 {
        assert(is_order::<T>(keys, Seq::<int>::empty()));
    } else {
        let fewer = keys.drop_last();
        let n = keys.len() - 1;
        sorted_order_exists::<T>(fewer);
        let o = order_of::<T>(fewer);
        let p = lemma_place_for::<T>(keys, o, n, 0);
        let placed = o.take(p).push(n) + o.skip(p);
        assert forall|i: int| 0 <= i < keys.len() implies #[trigger] placed.contains(i) by {
            if i == n {
                assert(placed[p] == n);
            } else {
                assert(o.contains(i));
                let w = choose|w: int| 0 <= w < o.len() && o[w] == i;
                if w < p {
                    assert(placed[w] == i);
                } else {
                    assert(placed[w + 1] == i);
                }
            }
        }
        assert forall|a: int, b: int| 0 <= a < b < placed.len() implies goes_before::<T>(
            keys,
            #[trigger] placed[a],
            #[trigger] placed[b],
        ) by {
            let x = if a < p {
                a
            } else {
                a - 1
            };
            let y = if b < p {
                b
            } else {
                b - 1
            };
            if a != p && b != p {
                assert(placed[a] == o[x] && placed[b] == o[y]);
                assert(goes_before::<T>(fewer, o[x], o[y]));
            } else if a == p {
                assert(placed[b] == o[y]);
            } else {
                assert(placed[a] == o[x]);
            }
        }
        assert(is_order::<T>(keys, placed));
    }
}

/// Where in `o` the position `n` belongs.
proof fn lemma_place_for<T: Ranked>(keys: Seq<T::V>, o: Seq<int>, n: int, from: int) -> (p: int)
    requires
        0 <= from <= o.len(),
        forall|a: int, b: int|
            0 <= a < b < o.len() ==> goes_before::<T>(
                keys.drop_last(),
                #[trigger] o[a],
                #[trigger] o[b],
            ),
        forall|a: int| 0 <= a < o.len() ==> 0 <= #[trigger] o[a] < n,
        n == keys.len() - 1,
        forall|a: int| 0 <= a < from ==> goes_before::<T>(keys, #[trigger] o[a], n),
    ensures
        from <= p <= o.len(),
        forall|a: int| 0 <= a < p ==> goes_before::<T>(keys, #[trigger] o[a], n),
        forall|a: int| p <= a < o.len() ==> goes_before::<T>(keys, n, #[trigger] o[a]),
    decreases o.len() - from,
{
    if from == o.len() {
        from
    } else if goes_before::<T>(keys, o[from], n) {
        lemma_place_for::<T>(keys, o, n, from + 1)
    } else {
        lemma_goes_before_is_strict::<T>(keys, o[from], n);
        assert forall|a: int| from <= a < o.len() implies goes_before::<T>(
            keys,
            n,
            #[trigger] o[a],
        ) by {
            if a > from {
                assert(goes_before::<T>(keys.drop_last(), o[from], o[a]));
                lemma_goes_before_is_transitive::<T>(keys, n, o[from], o[a]);
            }
        }
        from
    }
}

/// Sorting neither loses nor adds anything, and puts no key before a lower
/// one.
pub proof fn sorting_arranges<A, T: Ranked>(things: Seq<A>, keys: Seq<T::V>)
    requires
        things.len() == keys.len(),
    ensures
        sorted_by::<A, T>(things, keys).len() == things.len(),
        sorted_by::<A, T>(things, keys).to_multiset() == things.to_multiset(),
        forall|p: int, q: int|
            0 <= p < q < keys.len() ==> T::at_most(
                #[trigger] picked(keys, order_of::<T>(keys))[p],
                #[trigger] picked(keys, order_of::<T>(keys))[q],
            ),
{
    sorted_order_exists::<T>(keys);
    let o = order_of::<T>(keys);
    assert forall|p: int, q: int| 0 <= p < q < o.len() implies o[p] != o[q] by {
        lemma_goes_before_is_strict::<T>(keys, o[p], o[q]);
    }
    lemma_picked_is_rearranged(things, o);
}

/// Things sorted by a key of theirs come out with the key ascending, and are
/// the things that went in.
pub proof fn sorted_things_ascend<A, T: Ranked>(things: Seq<A>, key: spec_fn(A) -> T::V)
    ensures
        forall|p: int, q: int|
            0 <= p < q < things.len() ==> T::at_most(
                key(#[trigger] sorted_by::<A, T>(things, things.map_values(key))[p]),
                key(#[trigger] sorted_by::<A, T>(things, things.map_values(key))[q]),
            ),
        forall|thing: A| #[trigger]
            sorted_by::<A, T>(things, things.map_values(key)).contains(thing)
                <==> things.contains(thing),
{
    broadcast use vstd::seq_lib::group_to_multiset_ensures;

    let keys = things.map_values(key);
    let ranked = sorted_by::<A, T>(things, keys);
    sorting_arranges::<A, T>(things, keys);
    sorted_order_exists::<T>(keys);
    let o = order_of::<T>(keys);
    assert forall|p: int, q: int| 0 <= p < q < things.len() implies T::at_most(
        key(#[trigger] ranked[p]),
        key(#[trigger] ranked[q]),
    ) by {
        assert(0 <= o[p] < keys.len() && 0 <= o[q] < keys.len());
        assert(picked(keys, o)[p] == key(ranked[p]));
        assert(picked(keys, o)[q] == key(ranked[q]));
        assert(T::at_most(picked(keys, o)[p], picked(keys, o)[q]));
    }
    assert forall|thing: A| #[trigger] ranked.contains(thing) <==> things.contains(thing) by {
        assert(ranked.to_multiset().count(thing) == things.to_multiset().count(thing));
        assert(ranked.contains(thing) <==> ranked.to_multiset().count(thing) > 0);
        assert(things.contains(thing) <==> things.to_multiset().count(thing) > 0);
    }
}

/// Things whose keys ascend already come out of sorting as they went in.
pub proof fn sorting_leaves_the_sorted_alone<A, T: Ranked>(things: Seq<A>, keys: Seq<T::V>)
    requires
        things.len() == keys.len(),
        forall|p: int, q: int|
            0 <= p < q < keys.len() ==> T::at_most(#[trigger] keys[p], #[trigger] keys[q]),
    ensures
        sorted_by::<A, T>(things, keys) == things,
{
    let same = Seq::new(keys.len(), |i: int| i);
    assert forall|i: int| 0 <= i < keys.len() implies #[trigger] same.contains(i) by {
        assert(same[i] == i);
    }
    assert forall|p: int, q: int| 0 <= p < q < same.len() implies goes_before::<T>(
        keys,
        #[trigger] same[p],
        #[trigger] same[q],
    ) by {
        assert(T::at_most(keys[p], keys[q]));
    }
    assert(is_order::<T>(keys, same));
    sorted_order_exists::<T>(keys);
    sorted_order_is_unique::<T>(keys, order_of::<T>(keys), same);
    assert(sorted_by::<A, T>(things, keys) =~= things);
}

/// Picking every position once keeps what is there.
proof fn lemma_picked_is_rearranged<A>(things: Seq<A>, o: Seq<int>)
    requires
        o.len() == things.len(),
        forall|p: int| 0 <= p < o.len() ==> 0 <= #[trigger] o[p] < things.len(),
        forall|i: int| 0 <= i < things.len() ==> #[trigger] o.contains(i),
        forall|p: int, q: int| 0 <= p < q < o.len() ==> o[p] != o[q],
    ensures
        picked(things, o).to_multiset() == things.to_multiset(),
    decreases things.len(),
{
    broadcast use vstd::seq_lib::group_to_multiset_ensures;

    let all = picked(things, o);
    if things.len() > 0 {
        let n = things.len() - 1;
        assert(o.contains(n));
        let p = choose|p: int| 0 <= p < o.len() && o[p] == n;
        let fewer = o.remove(p);
        let rest = things.drop_last();
        assert forall|i: int| 0 <= i < rest.len() implies #[trigger] fewer.contains(i) by {
            assert(o.contains(i));
            let w = choose|w: int| 0 <= w < o.len() && o[w] == i;
            if w < p {
                assert(fewer[w] == i);
            } else {
                assert(fewer[w - 1] == i);
            }
        }
        lemma_picked_is_rearranged(rest, fewer);
        assert(picked(rest, fewer) =~= all.remove(p));
        assert(all[p] == things.last());
        assert(things =~= rest.push(things.last()));
        assert(all.remove(p).to_multiset() =~= all.to_multiset().remove(all[p]));
        assert(all.to_multiset().contains(all[p])) by {
            assert(all.contains(all[p]));
        }
        assert(all.to_multiset() =~= all.remove(p).to_multiset().insert(all[p]));
    } else {
        assert(all =~= things);
    }
}

/// A list with every thing left out that repeats the one before it.
pub open spec fn unrepeated<A>(things: Seq<A>) -> Seq<A>
    decreases things.len(),
{
    if things.len() == 0 {
        things
    } else if things.len() > 1 && things.last() == things[things.len() - 2] {
        unrepeated(things.drop_last())
    } else {
        unrepeated(things.drop_last()).push(things.last())
    }
}

/// Leaving repeats out of a list loses nothing and adds nothing.
pub proof fn unrepeated_keeps_everything<A>(things: Seq<A>)
    ensures
        things.len() > 0 ==> unrepeated(things).len() > 0 && unrepeated(things).last()
            == things.last(),
        forall|x: A| #[trigger] unrepeated(things).contains(x) <==> things.contains(x),
    decreases things.len(),
{
    if things.len() > 0 {
        let fewer = things.drop_last();
        unrepeated_keeps_everything(fewer);
        let r = unrepeated(things);
        assert forall|x: A| #[trigger] r.contains(x) <==> things.contains(x) by {
            if things.contains(x) {
                let i = choose|i: int| 0 <= i < things.len() && things[i] == x;
                if i < fewer.len() {
                    assert(fewer[i] == x);
                    assert(unrepeated(fewer).contains(x));
                    let w = choose|w: int|
                        0 <= w < unrepeated(fewer).len() && unrepeated(fewer)[w] == x;
                    assert(r[w] == x);
                } else {
                    assert(r[r.len() - 1] == x);
                }
            }
            if r.contains(x) {
                let w = choose|w: int| 0 <= w < r.len() && r[w] == x;
                if w < unrepeated(fewer).len() {
                    assert(unrepeated(fewer)[w] == x);
                    assert(unrepeated(fewer).contains(x));
                    let i = choose|i: int| 0 <= i < fewer.len() && fewer[i] == x;
                    assert(things[i] == x);
                } else {
                    assert(things[things.len() - 1] == x);
                }
            }
        }
    }
}

/// Of a list in order, leaving repeats out leaves each thing once, still in
/// order.
pub proof fn unrepeated_ascends<A>(things: Seq<A>, at_most: spec_fn(A, A) -> bool)
    requires
        forall|i: int, j: int|
            0 <= i < j < things.len() ==> at_most(#[trigger] things[i], #[trigger] things[j]),
        forall|a: A, b: A| #[trigger] at_most(a, b) && at_most(b, a) ==> a == b,
    ensures
        forall|i: int, j: int|
            0 <= i < j < unrepeated(things).len() ==> at_most(
                #[trigger] unrepeated(things)[i],
                #[trigger] unrepeated(things)[j],
            ) && unrepeated(things)[i] != unrepeated(things)[j],
    decreases things.len(),
{
    if things.len() > 0 {
        let fewer = things.drop_last();
        assert forall|i: int, j: int| 0 <= i < j < fewer.len() implies at_most(
            #[trigger] fewer[i],
            #[trigger] fewer[j],
        ) by {
            assert(at_most(things[i], things[j]));
        }
        unrepeated_ascends(fewer, at_most);
        unrepeated_keeps_everything(fewer);
        let r = unrepeated(things);
        let u = unrepeated(fewer);
        if fewer.len() > 0 && things.last() != fewer.last() {
            assert forall|i: int| 0 <= i < u.len() implies at_most(#[trigger] u[i], things.last())
                && u[i] != things.last() by {
                assert(u.contains(u[i]));
                assert(fewer.contains(u[i]));
                let k = choose|k: int| 0 <= k < fewer.len() && fewer[k] == u[i];
                assert(at_most(things[k], things[things.len() - 1]));
                if u[i] == things.last() {
                    let m = fewer.len() - 1;
                    if k < m {
                        assert(at_most(things[k], things[m]));
                    }
                    assert(at_most(things[m], things[things.len() - 1]));
                    assert(things[m] == things.last());
                }
            }
        }
    }
}

/// A value that can be copied out of a list.
pub trait Duplicate: DeepView + Sized {
    fn duplicate(&self) -> (r: Self)
        ensures
            r.deep_view() == self.deep_view(),
    ;
}

impl Duplicate for String {
    fn duplicate(&self) -> (r: Self) {
        self.clone()
    }
}

/// Copy a list.
pub fn duplicate_all<A: Duplicate>(things: &Vec<A>) -> (r: Vec<A>)
    ensures
        r.deep_view() == things.deep_view(),
{
    let mut out: Vec<A> = Vec::new();
    let mut i: usize = 0;
    while i < things.len()
        invariant
            i <= things.len(),
            out.deep_view() == things.deep_view().take(i as int),
        decreases things.len() - i,
    {
        let ghost before = out.deep_view();
        out.push(things[i].duplicate());
        assert(out.deep_view() =~= before.push(things.deep_view()[i as int]));
        assert(out.deep_view() =~= things.deep_view().take(i + 1));
        i = i + 1;
    }
    assert(things.deep_view().take(i as int) =~= things.deep_view());
    out
}

/// Copy the things at the listed positions.
pub fn pick<A: Duplicate>(things: &Vec<A>, order: &Vec<usize>) -> (r: Vec<A>)
    requires
        forall|p: int| 0 <= p < order.len() ==> #[trigger] order@[p] < things.len(),
    ensures
        r.deep_view() == picked(things.deep_view(), as_ints(order@)),
{
    let mut out: Vec<A> = Vec::new();
    let mut i: usize = 0;
    let ghost all = picked(things.deep_view(), as_ints(order@));
    while i < order.len()
        invariant
            i <= order.len(),
            forall|p: int| 0 <= p < order.len() ==> #[trigger] order@[p] < things.len(),
            all == picked(things.deep_view(), as_ints(order@)),
            out.deep_view() == all.take(i as int),
        decreases order.len() - i,
    {
        let ghost before = out.deep_view();
        out.push(things[order[i]].duplicate());
        assert(out.deep_view() =~= before.push(all[i as int]));
        assert(out.deep_view() =~= all.take(i + 1));
        i = i + 1;
    }
    assert(all.take(i as int) =~= all);
    out
}

/// Sort by keys that run alongside the things.
pub fn sort_by_keys<A: Duplicate, T: Ranked>(things: &Vec<A>, keys: &Vec<T>) -> (r: Vec<A>)
    requires
        things.len() == keys.len(),
    ensures
        r.deep_view() == sorted_by::<A::V, T>(things.deep_view(), keys.deep_view()),
{
    let order: Vec<usize> = ranking(keys);
    assert forall|p: int| 0 <= p < order.len() implies #[trigger] order@[p] < things.len() by {
        assert(0 <= as_ints(order@)[p] < keys.len());
    }
    pick(things, &order)
}

} // verus!
