//! How versions are taken apart, ranked and listed.
use vstd::prelude::*;

use crate::order;
use crate::text;
use crate::version;

verus! {

/// Whether a character parts a version without being part of it.
pub open spec fn is_divider(c: char) -> bool {
    c == '.' || c == '-'
}

/// Whether text is one part of a version: digits throughout, or none.
pub open spec fn is_one_part(part: Seq<char>) -> bool {
    &&& part.len() > 0
    &&& forall|i: int|
        0 <= i < part.len() ==> !is_divider(#[trigger] part[i]) && ('0' <= part[i] <= '9') == ('0'
            <= part[0] <= '9')
}

/// Whether what follows is no more of the same part.
pub open spec fn begins_anew(part: Seq<char>, rest: Seq<char>) -> bool {
    rest.len() == 0 || is_divider(rest[0]) || ('0' <= rest[0] <= '9') != ('0' <= part[0] <= '9')
}

proof fn lemma_run(part: Seq<char>, rest: Seq<char>, digits: bool)
    requires
        forall|i: int|
            0 <= i < part.len() ==> !is_divider(#[trigger] part[i]) && ('0' <= part[i] <= '9')
                == digits,
        rest.len() == 0 || is_divider(rest[0]) || ('0' <= rest[0] <= '9') != digits,
    ensures
        version::run_len(part + rest, digits) == part.len(),
    decreases part.len(),
{
    let all = part + rest;
    if part.len() > 0 {
        let fewer = part.drop_first();
        assert(all.drop_first() =~= fewer + rest);
        assert(all[0] == part[0]);
        assert forall|i: int| 0 <= i < fewer.len() implies !is_divider(#[trigger] fewer[i]) && ('0'
            <= fewer[i] <= '9') == digits by {
            assert(fewer[i] == part[i + 1]);
        }
        lemma_run(fewer, rest, digits);
    } else {
        assert(all =~= rest);
    }
}

/// A version parts at dots and dashes, which are dropped, and where digits meet
/// anything else, and nowhere else.
pub proof fn versions_part_at_marks_and_where_digits_end(part: Seq<char>, rest: Seq<char>)
    ensures
        version::parts_of(Seq::empty()) == Seq::<Seq<char>>::empty(),
        version::parts_of("."@ + rest) == version::parts_of(rest),
        version::parts_of("-"@ + rest) == version::parts_of(rest),
        is_one_part(part) && begins_anew(part, rest) ==> version::parts_of(part + rest) == seq![
            part,
        ] + version::parts_of(rest),
{
    reveal_strlit(".");
    reveal_strlit("-");
    assert(("."@ + rest).drop_first() =~= rest);
    assert(("-"@ + rest).drop_first() =~= rest);
    assert(("."@ + rest)[0] == '.');
    assert(("-"@ + rest)[0] == '-');
    if is_one_part(part) && begins_anew(part, rest) {
        let all = part + rest;
        assert(all[0] == part[0]);
        lemma_run(part, rest, '0' <= part[0] <= '9');
        assert(all.take(part.len() as int) =~= part);
        assert(all.skip(part.len() as int) =~= rest);
    }
}

/// The part of a version at a place, or nothing where it has no more.
pub open spec fn part_at(version: Seq<char>, i: int) -> Seq<char> {
    nth(version::parts_of(version), i)
}

/// What is at a place, or nothing.
pub open spec fn nth(parts: Seq<Seq<char>>, i: int) -> Seq<char> {
    if 0 <= i < parts.len() {
        parts[i]
    } else {
        Seq::empty()
    }
}

/// Whether a part is a number.
pub open spec fn is_number(part: Seq<char>) -> bool {
    part.len() > 0 && forall|i: int| 0 <= i < part.len() ==> '0' <= #[trigger] part[i] <= '9'
}

/// Whether a part is a word other than `pre`.
pub open spec fn is_word(part: Seq<char>) -> bool {
    part.len() > 0 && !is_number(part) && part != "pre"@
}

/// Whether one part ranks below another: `pre` below nothing at all, that
/// below any word, that below any number; words by the alphabet and numbers by
/// what they count.
pub open spec fn is_older_part(a: Seq<char>, b: Seq<char>) -> bool {
    ||| a == "pre"@ && b != "pre"@
    ||| a.len() == 0 && (is_word(b) || is_number(b))
    ||| is_word(a) && is_number(b)
    ||| is_word(a) && is_word(b) && a != b && text::text_at_most(a, b)
    ||| is_number(a) && is_number(b) && text::digits_value(a) < text::digits_value(b)
}

/// Whether two parts rank alike.
pub open spec fn is_level_part(a: Seq<char>, b: Seq<char>) -> bool {
    a == b || (is_number(a) && is_number(b) && text::digits_value(a) == text::digits_value(b))
}

proof fn lemma_parts_rank(a: Seq<char>, b: Seq<char>)
    ensures
        is_older_part(a, b) ==> version::part_at_most(a, b) && !version::part_at_most(b, a),
        is_level_part(a, b) ==> version::part_at_most(a, b) && version::part_at_most(b, a),
{
    reveal_strlit("pre");
    assert(!is_number("pre"@)) by {
        assert("pre"@[0] == 'p');
    }
    text::dictionary_order_is_total(a, b);
    assert(is_number(a) ==> text::all_digits(a));
    assert(is_number(b) ==> text::all_digits(b));
    assert(text::all_digits(a) && a.len() > 0 ==> is_number(a)) by {
        if text::all_digits(a) {
            assert forall|i: int| 0 <= i < a.len() implies '0' <= #[trigger] a[i] <= '9' by {
                assert(text::is_digit(a[i]));
            }
        }
    }
    assert(text::all_digits(b) && b.len() > 0 ==> is_number(b)) by {
        if text::all_digits(b) {
            assert forall|i: int| 0 <= i < b.len() implies '0' <= #[trigger] b[i] <= '9' by {
                assert(text::is_digit(b[i]));
            }
        }
    }
}

proof fn lemma_rank(a: Seq<Seq<char>>, b: Seq<Seq<char>>, n: int)
    requires
        0 <= n,
        forall|i: int| 0 <= i < n ==> is_level_part(#[trigger] nth(a, i), nth(b, i)),
    ensures
        is_older_part(nth(a, n), nth(b, n)) ==> version::parts_at_most(a, b)
            && !version::parts_at_most(b, a),
        a.len() <= n && b.len() <= n ==> version::parts_at_most(a, b) && version::parts_at_most(
            b,
            a,
        ),
    decreases n,
{
    lemma_parts_rank(nth(a, 0), nth(b, 0));
    lemma_parts_rank(nth(b, 0), nth(a, 0));
    assert(version::head_of(a) =~= nth(a, 0));
    assert(version::head_of(b) =~= nth(b, 0));
    if a.len() == 0 && b.len() == 0 {
        reveal_strlit("pre");
        assert(!is_older_part(nth(a, n), nth(b, n)));
    } else if n > 0 {
        let x = version::rest_of(a);
        let y = version::rest_of(b);
        assert forall|i: int| #![trigger nth(x, i)] 0 <= i implies nth(x, i) == nth(a, i + 1) && nth(
            y,
            i,
        ) == nth(b, i + 1) by {}
        assert(nth(x, n - 1) == nth(a, n));
        assert forall|i: int| 0 <= i < n - 1 implies is_level_part(
            #[trigger] nth(x, i),
            nth(y, i),
        ) by {
            assert(is_level_part(nth(a, i + 1), nth(b, i + 1)));
        }
        assert(is_level_part(nth(a, 0), nth(b, 0)));
        lemma_rank(x, y, n - 1);
    }
}

/// Two versions rank by the first place at which their parts do not rank
/// alike, and alike when there is none. A version that has no more parts there
/// is older than one that goes on, unless that goes on with `pre`.
pub proof fn versions_rank_by_the_first_part_that_differs(a: Seq<char>, b: Seq<char>, n: int)
    requires
        0 <= n,
        forall|i: int| 0 <= i < n ==> is_level_part(#[trigger] part_at(a, i), part_at(b, i)),
    ensures
        is_older_part(part_at(a, n), part_at(b, n)) ==> version::at_most(a, b) && !version::at_most(
            b,
            a,
        ),
        version::parts_of(a).len() <= n && version::parts_of(b).len() <= n ==> version::at_most(
            a,
            b,
        ) && version::at_most(b, a),
{
    let x = version::parts_of(a);
    let y = version::parts_of(b);
    assert forall|i: int| 0 <= i < n implies is_level_part(#[trigger] nth(x, i), nth(y, i)) by {
        assert(is_level_part(part_at(a, i), part_at(b, i)));
    }
    lemma_rank(x, y, n);
}

/// Sorted versions are the same versions, the oldest first.
pub proof fn sorted_versions_come_oldest_first(versions: Seq<Seq<char>>)
    ensures
        version::oldest_first(versions).to_multiset() == versions.to_multiset(),
        forall|p: int, q: int|
            0 <= p < q < versions.len() ==> version::at_most(
                #[trigger] version::oldest_first(versions)[p],
                #[trigger] version::oldest_first(versions)[q],
            ),
{
    order::sorting_arranges::<Seq<char>, version::ByVersion>(versions, versions);
    let same = |v: Seq<char>| v;
    assert(versions.map_values(same) =~= versions);
    order::sorted_things_ascend::<Seq<char>, version::ByVersion>(versions, same);
    let sorted = version::oldest_first(versions);
    assert forall|p: int, q: int| 0 <= p < q < versions.len() implies version::at_most(
        #[trigger] sorted[p],
        #[trigger] sorted[q],
    ) by {
        assert(version::at_most(same(sorted[p]), same(sorted[q])));
    }
}

} // verus!
