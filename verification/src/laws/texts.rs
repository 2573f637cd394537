//! How texts are ordered, numbers written and read, and counts shown.
use vstd::prelude::*;

use crate::output;
use crate::text;

verus! {

/// Texts rank by the first character that differs, and one that another goes
/// on from ranks before it.
pub proof fn texts_rank_by_the_first_difference(
    shared: Seq<char>,
    a: Seq<char>,
    b: Seq<char>,
    c: char,
    d: char,
)
    ensures
        text::text_at_most(shared, shared + a),
        a.len() > 0 ==> !text::text_at_most(shared + a, shared),
        c < d ==> text::text_at_most(shared + seq![c] + a, shared + seq![d] + b)
            && !text::text_at_most(shared + seq![d] + b, shared + seq![c] + a),
    decreases shared.len(),
{
    if shared.len() > 0 {
        let less = shared.drop_first();
        texts_rank_by_the_first_difference(less, a, b, c, d);
        assert((shared + a).drop_first() =~= less + a);
        assert((shared + seq![c] + a).drop_first() =~= less + seq![c] + a);
        assert((shared + seq![d] + b).drop_first() =~= less + seq![d] + b);
        assert((shared + a)[0] == shared[0]);
        assert((shared + seq![c] + a)[0] == shared[0]);
        assert((shared + seq![d] + b)[0] == shared[0]);
    } else {
        assert((shared + seq![c] + a)[0] == c);
        assert((shared + seq![d] + b)[0] == d);
    }
}

/// A text is a number's digits: more than none, and nothing but digits.
pub open spec fn are_digits(s: Seq<char>) -> bool {
    s.len() > 0 && forall|i: int| 0 <= i < s.len() ==> '0' <= #[trigger] s[i] <= '9'
}

/// Each digit counts ten times what it would one place on.
pub proof fn digits_count_by_tens(s: Seq<char>, c: char)
    requires
        '0' <= c <= '9',
    ensures
        text::digits_value(Seq::empty()) == 0,
        text::digits_value(s.push(c)) == 10 * text::digits_value(s) + (c as int - '0' as int),
{
    assert(s.push(c).drop_last() =~= s);
}

/// A number is written in decimal digits, without a zero in front, that count
/// the number; one below zero behind a dash.
pub proof fn numbers_are_written_in_decimal(n: nat)
    ensures
        are_digits(text::decimal(n)),
        text::digits_value(text::decimal(n)) == n,
        text::decimal(n).len() > 1 ==> text::decimal(n)[0] != '0',
        text::signed_decimal(n as int) == text::decimal(n),
        n > 0 ==> text::signed_decimal(-n) == seq!['-'] + text::decimal(n),
    decreases n,
{
    text::decimal_reads_back(n);
    reveal_strlit("-");
    assert("-"@ =~= seq!['-']);
    let s = text::decimal(n);
    assert forall|i: int| 0 <= i < s.len() implies '0' <= #[trigger] s[i] <= '9' by {
        assert(text::is_digit(s[i]));
    }
    if n >= 10 {
        numbers_are_written_in_decimal(n / 10);
        text::decimal_reads_back(n / 10);
        let head = text::decimal(n / 10);
        assert(s[0] == head[0]);
        if head.len() == 1 && head[0] == '0' {
            assert(head =~= Seq::<char>::empty().push('0'));
            digits_count_by_tens(Seq::empty(), '0');
            assert(false);
        }
    }
}

/// A text is read as a number just when it is digits, behind a sign or not,
/// that count what the machine can hold; and is read as what it counts.
pub proof fn numbers_are_read_from_decimal(s: Seq<char>, digits: Seq<char>)
    ensures
        are_digits(digits) ==> {
            let n = text::digits_value(digits) as int;
            &&& text::number_in(digits) == if n <= i64::MAX {
                Some(n as i64)
            } else {
                None
            }
            &&& text::number_in(seq!['+'] + digits) == if n <= i64::MAX {
                Some(n as i64)
            } else {
                None
            }
            &&& text::number_in(seq!['-'] + digits) == if -n >= i64::MIN {
                Some((-n) as i64)
            } else {
                None
            }
        },
        text::number_in(s) is Some ==> are_digits(s) || (s.len() > 0 && (s[0] == '-' || s[0] == '+')
            && are_digits(s.skip(1))),
{
    if are_digits(digits) {
        assert('0' <= digits[0] <= '9');
        assert(text::all_digits(digits));
        assert((seq!['+'] + digits).skip(1) =~= digits);
        assert((seq!['-'] + digits).skip(1) =~= digits);
        assert((seq!['+'] + digits)[0] == '+');
        assert((seq!['-'] + digits)[0] == '-');
    }
    if text::number_in(s) is Some {
        let d = if s.len() > 0 && (s[0] == '-' || s[0] == '+') {
            s.skip(1)
        } else {
            s
        };
        assert forall|i: int| 0 <= i < d.len() implies '0' <= #[trigger] d[i] <= '9' by {
            assert(text::is_digit(d[i]));
        }
    }
}

/// What a number is written as, it is read as.
pub proof fn written_numbers_read_back(n: i64)
    ensures
        text::number_in(text::signed_decimal(n as int)) == Some(n),
{
    let m = if n < 0 {
        -(n as int)
    } else {
        n as int
    };
    numbers_are_written_in_decimal(m as nat);
    numbers_are_read_from_decimal(Seq::empty(), text::decimal(m as nat));
}

/// Trimming takes white space off the end, all of it and nothing else.
pub proof fn trimming_takes_the_spaces_at_the_end(s: Seq<char>)
    ensures
        text::trimmed(s).is_prefix_of(s),
        text::trimmed(s).len() == 0 || !text::is_space(text::trimmed(s).last()),
        forall|i: int| text::trimmed(s).len() <= i < s.len() ==> text::is_space(#[trigger] s[i]),
    decreases s.len(),
{
    if s.len() > 0 && text::is_space(s.last()) {
        let less = s.drop_last();
        trimming_takes_the_spaces_at_the_end(less);
        let t = text::trimmed(s);
        assert(t =~= s.take(t.len() as int)) by {
            assert(t =~= less.take(t.len() as int));
        }
        assert forall|i: int| t.len() <= i < s.len() implies text::is_space(#[trigger] s[i]) by {
            if i < less.len() {
                assert(less[i] == s[i]);
            }
        }
    } else {
        assert(s =~= s.take(s.len() as int));
    }
}

/// Painted text stands between the sequence that turns its style on and the
/// one that turns all styles off; plain text stands alone.
pub proof fn paint_stands_round_the_text(shown: Seq<char>)
    ensures
        output::painted(shown, output::Style::Plain) == shown,
        output::painted(shown, output::Style::Bold) == "\x1b[1m"@ + shown + "\x1b[0m"@,
        output::painted(shown, output::Style::Dimmed) == "\x1b[2m"@ + shown + "\x1b[0m"@,
        output::painted(shown, output::Style::Green) == "\x1b[32m"@ + shown + "\x1b[0m"@,
        output::painted(shown, output::Style::Red) == "\x1b[31m"@ + shown + "\x1b[0m"@,
{
}

/// A count is written with its noun, which takes an `s` unless the count is
/// one.
pub proof fn nouns_follow_their_count(n: nat, noun: Seq<char>)
    ensures
        n == 1 ==> output::counted(n, noun) == "1 "@ + noun,
        n != 1 ==> output::counted(n, noun) == text::decimal(n) + " "@ + noun + "s"@,
{
    reveal_strlit("1 ");
    reveal_strlit(" ");
    if n == 1 {
        assert(text::decimal(1) + " "@ + noun =~= "1 "@ + noun);
    }
}

/// How many bytes a unit stands for, and the unit's name.
pub open spec fn is_unit(size: nat, name: Seq<char>) -> bool {
    ||| size == 0x400 && name == "KiB"@
    ||| size == 0x10_0000 && name == "MiB"@
    ||| size == 0x4000_0000 && name == "GiB"@
    ||| size == 0x100_0000_0000 && name == "TiB"@
    ||| size == 0x4_0000_0000_0000 && name == "PiB"@
}

/// Whether a number of tenths is the nearest to a count in a unit, the even one
/// of two that are as near.
pub open spec fn is_nearest_tenth(tenths: nat, count: nat, unit: nat) -> bool {
    let exact = 10 * count;
    let near = tenths * unit;
    &&& 2 * near <= 2 * exact + unit
    &&& 2 * exact <= 2 * near + unit
    &&& (2 * near == 2 * exact + unit || 2 * exact == 2 * near + unit) ==> tenths % 2 == 0
}

proof fn lemma_half_even(n: nat, d: nat)
    requires
        d > 0,
    ensures
        ({
            let h = output::half_even(n, d);
            &&& 2 * (h * d) <= 2 * n + d
            &&& 2 * n <= 2 * (h * d) + d
            &&& (2 * (h * d) == 2 * n + d || 2 * n == 2 * (h * d) + d) ==> h % 2 == 0
        }),
{
    let q = n / d;
    let r = n % d;
    assert(n == q * d + r && 0 <= r < d) by (nonlinear_arith)
        requires
            d > 0,
            q == n / d,
            r == n % d,
    ;
    assert((q + 1) * d == q * d + d) by (nonlinear_arith);
}

proof fn lemma_units()
    ensures
        output::unit_size(0) == 1,
        output::unit_size(1) == 0x400,
        output::unit_size(2) == 0x10_0000,
        output::unit_size(3) == 0x4000_0000,
        output::unit_size(4) == 0x100_0000_0000,
        output::unit_size(5) == 0x4_0000_0000_0000,
{
    reveal_with_fuel(output::unit_size, 7);
}

/// Bytes below a kibibyte are counted out. More are shown in the largest unit,
/// up to pebibytes, that there is at least one of, to the nearest tenth. The
/// count is first taken as a double holds it, which is exact below two to the
/// power of fifty-three.
pub proof fn bytes_are_shown_in_their_largest_unit(n: int)
    ensures
        n < 1024 ==> output::bytes_shown(n) == text::signed_decimal(n) + " B"@,
        n >= 1024 ==> exists|count: nat, unit: nat, name: Seq<char>, tenths: nat|
            #![trigger is_nearest_tenth(tenths, count, unit), is_unit(unit, name)]
            is_unit(unit, name) && is_nearest_tenth(tenths, count, unit) && unit <= count && (count
                < 1024 * unit || name == "PiB"@) && (n < 0x20_0000_0000_0000 ==> count == n)
                && output::bytes_shown(n) == text::decimal(tenths / 10) + "."@ + seq![
                text::digit(tenths % 10),
            ] + " "@ + name && is_nearest_double(count, n as nat),
{
    if n >= 1024 {
        let count = output::at_double_precision(n as nat);
        lemma_doubles(n as nat);
        lemma_units();
        reveal_with_fuel(output::unit_for, 7);
        let u = output::unit_for(count, 0);
        let unit = output::unit_size(u);
        let name = output::unit_name(u);
        assert(count >= 1024) by {
            if n >= 0x20_0000_0000_0000 {
                assert(2 * count >= n);
            }
        }
        assert(1 <= u <= 5 && is_unit(unit, name));
        let tenths = output::half_even(count * 10, unit);
        lemma_half_even(count * 10, unit);
        assert(is_nearest_tenth(tenths, count, unit));
        assert(text::decimal((tenths % 10) as nat) =~= seq![text::digit(tenths % 10)]);
    }
}

/// Whether a number is a power of two.
pub open spec fn is_power_of_two(s: nat) -> bool
    decreases s,
{
    s == 1 || (s > 1 && s % 2 == 0 && is_power_of_two(s / 2))
}

/// Whether a count is the nearest to a number that a double holds: the number
/// itself below two to the power of fifty-three, else the nearest multiple of
/// the power of two that leaves fifty-three binary digits, the even one of two
/// that are as near.
pub open spec fn is_nearest_double(count: nat, n: nat) -> bool {
    exists|spacing: nat, times: nat|
        #![trigger is_power_of_two(spacing), times * spacing]
        is_power_of_two(spacing) && count == times * spacing && (spacing == 1 || n
            >= 0x10_0000_0000_0000 * spacing) && n < 0x20_0000_0000_0000 * spacing && 2 * count <= 2
            * n + spacing && 2 * n <= 2 * count + spacing && ((2 * count == 2 * n + spacing || 2 * n
            == 2 * count + spacing) ==> times % 2 == 0)
}

proof fn lemma_spacing(n: nat)
    ensures
        is_power_of_two(output::spacing(n)),
        output::spacing(n) == 1 || n >= 0x10_0000_0000_0000 * output::spacing(n),
        n < 0x20_0000_0000_0000 * output::spacing(n),
        n < 0x20_0000_0000_0000 ==> output::spacing(n) == 1,
        output::spacing(n) > 0,
    decreases n,
{
    if n >= 0x20_0000_0000_0000 {
        lemma_spacing(n / 2);
        let half = output::spacing(n / 2);
        assert((2 * half) / 2 == half);
        assert((2 * half) % 2 == 0);
    }
}

proof fn lemma_doubles(n: nat)
    ensures
        is_nearest_double(output::at_double_precision(n), n),
        n < 0x20_0000_0000_0000 ==> output::at_double_precision(n) == n,
        2 * output::at_double_precision(n) >= n,
{
    lemma_spacing(n);
    let spacing = output::spacing(n);
    lemma_half_even(n, spacing);
    let times = output::half_even(n, spacing);
    assert(output::at_double_precision(n) == times * spacing);
    assert(is_power_of_two(spacing));
    if spacing == 1 {
        assert(times * 1 == times);
        assert(n % 1 == 0);
        assert(n / 1 == n);
    }
}

} // verus!
