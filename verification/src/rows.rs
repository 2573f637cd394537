//! Picking rows out of a table.
use vstd::prelude::*;

use crate::order::Duplicate;

verus! {

/// The first thing that fits.
pub open spec fn first_where<A>(things: Seq<A>, fits: spec_fn(A) -> bool) -> Option<A> {
    let found = things.filter(fits);
    if found.len() > 0 {
        Some(found[0])
    } else {
        None
    }
}

/// Copy out the rows that fit, in table order.
pub(crate) fn select<A: Duplicate, F: Fn(&A) -> bool>(
    rows: &Vec<A>,
    test: F,
    Ghost(fits): Ghost<spec_fn(A::V) -> bool>,
) -> (r: Vec<A>)
    requires
        forall|a: &A| test.requires((a,)),
        forall|a: &A, b: bool| test.ensures((a,), b) ==> b == fits(a.deep_view()),
    ensures
        r.deep_view() == rows.deep_view().filter(fits),
{
    let mut out: Vec<A> = Vec::new();
    let mut i: usize = 0;
    let ghost all = rows.deep_view();
    proof {
        reveal(Seq::filter);
        assert(all.take(0) =~= Seq::<A::V>::empty());
        assert(out.deep_view() =~= Seq::<A::V>::empty());
    }
    while i < rows.len()
        invariant
            i <= rows.len(),
            all == rows.deep_view(),
            forall|a: &A| test.requires((a,)),
            forall|a: &A, b: bool| test.ensures((a,), b) ==> b == fits(a.deep_view()),
            out.deep_view() == all.take(i as int).filter(fits),
        decreases rows.len() - i,
    {
        let ghost before = out.deep_view();
        assert(all.take(i + 1) =~= all.take(i as int).push(all[i as int]));
        proof {
            Seq::lemma_filter_push(all.take(i as int), all[i as int], fits);
        }
        if test(&rows[i]) {
            out.push(rows[i].duplicate());
            assert(out.deep_view() =~= before.push(all[i as int]));
        }
        i = i + 1;
    }
    assert(all.take(i as int) =~= all);
    out
}

/// Copy out the first row that fits.
pub(crate) fn find<A: Duplicate, F: Fn(&A) -> bool>(
    rows: &Vec<A>,
    test: F,
    Ghost(fits): Ghost<spec_fn(A::V) -> bool>,
) -> (r: Option<A>)
    requires
        forall|a: &A| test.requires((a,)),
        forall|a: &A, b: bool| test.ensures((a,), b) ==> b == fits(a.deep_view()),
    ensures
        r.deep_view() == first_where(rows.deep_view(), fits),
{
    let mut i: usize = 0;
    let ghost all = rows.deep_view();
    proof {
        reveal(Seq::filter);
        assert(all.take(0) =~= Seq::<A::V>::empty());
    }
    while i < rows.len()
        invariant
            i <= rows.len(),
            all == rows.deep_view(),
            forall|a: &A| test.requires((a,)),
            forall|a: &A, b: bool| test.ensures((a,), b) ==> b == fits(a.deep_view()),
            all.take(i as int).filter(fits).len() == 0,
        decreases rows.len() - i,
    {
        assert(all.take(i + 1) =~= all.take(i as int).push(all[i as int]));
        proof {
            Seq::lemma_filter_push(all.take(i as int), all[i as int], fits);
        }
        if test(&rows[i]) {
            proof {
                assert(all =~= all.take(i + 1) + all.skip(i + 1));
                Seq::filter_distributes_over_add(all.take(i + 1), all.skip(i + 1), fits);
                assert(all.filter(fits)[0] == all[i as int]);
            }
            return Some(rows[i].duplicate());
        }
        i = i + 1;
    }
    assert(all.take(i as int) =~= all);
    None
}

/// Turn every row into something else, one for one.
pub(crate) fn map_rows<A: DeepView, B: DeepView, F: Fn(&A) -> B>(
    rows: &Vec<A>,
    turn: F,
    Ghost(turned): Ghost<spec_fn(A::V) -> B::V>,
) -> (r: Vec<B>)
    requires
        forall|a: &A| turn.requires((a,)),
        forall|a: &A, b: B| turn.ensures((a,), b) ==> b.deep_view() == turned(a.deep_view()),
    ensures
        r.deep_view() == rows.deep_view().map_values(turned),
        r.len() == rows.len(),
{
    let mut out: Vec<B> = Vec::new();
    let mut i: usize = 0;
    let ghost all = rows.deep_view().map_values(turned);
    while i < rows.len()
        invariant
            i <= rows.len(),
            all == rows.deep_view().map_values(turned),
            forall|a: &A| turn.requires((a,)),
            forall|a: &A, b: B| turn.ensures((a,), b) ==> b.deep_view() == turned(a.deep_view()),
            out.deep_view() == all.take(i as int),
        decreases rows.len() - i,
    {
        let ghost before = out.deep_view();
        out.push(turn(&rows[i]));
        assert(out.deep_view() =~= before.push(all[i as int]));
        assert(out.deep_view() =~= all.take(i + 1));
        i = i + 1;
    }
    assert(all.take(i as int) =~= all);
    assert(out.deep_view().len() == rows.deep_view().len());
    out
}

/// What comes of the rows that something comes of.
pub open spec fn kept_and_turned<A, B>(things: Seq<A>, turned: spec_fn(A) -> Option<B>) -> Seq<B>
    decreases things.len(),
{
    if things.len() == 0 {
        Seq::empty()
    } else {
        match turned(things.last()) {
            Some(b) => kept_and_turned(things.drop_last(), turned).push(b),
            None => kept_and_turned(things.drop_last(), turned),
        }
    }
}

/// What is kept is what comes of some row.
pub proof fn kept_comes_of_a_row<A, B>(things: Seq<A>, turned: spec_fn(A) -> Option<B>, b: B)
    ensures
        kept_and_turned(things, turned).contains(b) <==> exists|i: int|
            0 <= i < things.len() && turned(#[trigger] things[i]) == Some(b),
    decreases things.len(),
{
    if things.len() > 0 {
        let fewer = things.drop_last();
        let last = things.len() - 1;
        kept_comes_of_a_row(fewer, turned, b);
        let some = kept_and_turned(fewer, turned);
        let all = kept_and_turned(things, turned);
        if some.contains(b) {
            let w = choose|w: int| 0 <= w < some.len() && some[w] == b;
            assert(all[w] == b);
            let i = choose|i: int| 0 <= i < fewer.len() && turned(#[trigger] fewer[i]) == Some(b);
            assert(turned(things[i]) == Some(b));
        }
        if turned(things[last]) == Some(b) {
            assert(all[all.len() - 1] == b);
        }
        if all.contains(b) && !some.contains(b) {
            let w = choose|w: int| 0 <= w < all.len() && all[w] == b;
            if w < some.len() {
                assert(some[w] == b);
            }
            assert(turned(things[last]) == Some(b));
        }
        if exists|i: int| 0 <= i < things.len() && turned(#[trigger] things[i]) == Some(b) {
            let i = choose|i: int| 0 <= i < things.len() && turned(#[trigger] things[i]) == Some(b);
            if i < last {
                assert(turned(fewer[i]) == Some(b));
            }
        }
    }
}

/// Turn every row that can be turned, and leave out the others.
pub(crate) fn turn_rows<A: DeepView, B: DeepView, F: Fn(&A) -> Option<B>>(
    rows: &Vec<A>,
    turn: F,
    Ghost(turned): Ghost<spec_fn(A::V) -> Option<B::V>>,
) -> (r: Vec<B>)
    requires
        forall|a: &A| turn.requires((a,)),
        forall|a: &A, b: Option<B>|
            turn.ensures((a,), b) ==> b.deep_view() == turned(a.deep_view()),
    ensures
        r.deep_view() == kept_and_turned(rows.deep_view(), turned),
{
    let mut out: Vec<B> = Vec::new();
    let mut i: usize = 0;
    let ghost all = rows.deep_view();
    assert(out.deep_view() =~= Seq::<B::V>::empty());
    while i < rows.len()
        invariant
            i <= rows.len(),
            all == rows.deep_view(),
            forall|a: &A| turn.requires((a,)),
            forall|a: &A, b: Option<B>|
                turn.ensures((a,), b) ==> b.deep_view() == turned(a.deep_view()),
            out.deep_view() == kept_and_turned(all.take(i as int), turned),
        decreases rows.len() - i,
    {
        assert(all.take(i + 1).drop_last() =~= all.take(i as int));
        assert(all.take(i + 1).last() == rows@[i as int].deep_view());
        let ghost before = out.deep_view();
        match turn(&rows[i]) {
            Some(b) => {
                out.push(b);
                assert(out.deep_view() =~= before.push(b.deep_view()));
            },
            None => {},
        }
        i = i + 1;
    }
    assert(all.take(i as int) =~= all);
    out
}

/// The first thing that fits is at the first position of one that fits.
pub proof fn first_where_is_first<A>(things: Seq<A>, fits: spec_fn(A) -> bool)
    ensures
        forall|i: int|
            0 <= i < things.len() && fits(#[trigger] things[i]) && (forall|j: int|
                0 <= j < i ==> !fits(#[trigger] things[j])) ==> first_where(things, fits) == Some(
                things[i],
            ),
        (forall|j: int| 0 <= j < things.len() ==> !fits(#[trigger] things[j])) ==> first_where(
            things,
            fits,
        ) is None,
    decreases things.len(),
{
    reveal(Seq::filter);
    if things.len() > 0 {
        let fewer = things.drop_last();
        first_where_is_first(fewer, fits);
        let last = things.len() - 1;
        assert forall|i: int|
            0 <= i < things.len() && fits(#[trigger] things[i]) && (forall|j: int|
                0 <= j < i ==> !fits(#[trigger] things[j])) implies first_where(things, fits)
            == Some(things[i]) by {
            if i < last {
                assert(fewer[i] == things[i]);
                assert forall|j: int| 0 <= j < i implies !fits(#[trigger] fewer[j]) by {
                    assert(fewer[j] == things[j]);
                }
                assert(first_where(fewer, fits) == Some(fewer[i]));
            } else {
                assert forall|j: int| 0 <= j < fewer.len() implies !fits(#[trigger] fewer[j]) by {
                    assert(fewer[j] == things[j]);
                }
            }
        }
        if forall|j: int| 0 <= j < things.len() ==> !fits(#[trigger] things[j]) {
            assert forall|j: int| 0 <= j < fewer.len() implies !fits(#[trigger] fewer[j]) by {
                assert(fewer[j] == things[j]);
            }
            assert(!fits(things[last]));
        }
    }
}

/// Put one list after another.
pub(crate) fn extend_rows<A: Duplicate>(out: &mut Vec<A>, more: &Vec<A>)
    ensures
        final(out).deep_view() == old(out).deep_view() + more.deep_view(),
{
    let mut i: usize = 0;
    let ghost start = out.deep_view();
    assert(start + more.deep_view().take(0) =~= start);
    while i < more.len()
        invariant
            i <= more.len(),
            out.deep_view() == start + more.deep_view().take(i as int),
        decreases more.len() - i,
    {
        let ghost before = out.deep_view();
        out.push(more[i].duplicate());
        assert(out.deep_view() =~= before.push(more.deep_view()[i as int]));
        assert(out.deep_view() =~= start + more.deep_view().take(i + 1));
        i = i + 1;
    }
    assert(more.deep_view().take(i as int) =~= more.deep_view());
}

} // verus!
