//! Text as the index uses it: ordering, splitting, joining, decimal numbers.
//!
//! Every contract here speaks of the characters of a string, its view.
use vstd::prelude::*;
use vstd::string::*;

verus! {

/// Dictionary order on characters, a prefix coming first.
pub open spec fn text_at_most(a: Seq<char>, b: Seq<char>) -> bool
    decreases a.len(),
{
    if a.len() == 0 {
        true
    } else if b.len() == 0 {
        false
    } else if a[0] == b[0] {
        text_at_most(a.drop_first(), b.drop_first())
    } else {
        a[0] < b[0]
    }
}

/// Strictly before in dictionary order.
pub open spec fn text_before(a: Seq<char>, b: Seq<char>) -> bool {
    text_at_most(a, b) && a != b
}

/// Dictionary order puts any two texts one way or the other, and both ways
/// only when they are the same text.
pub proof fn dictionary_order_is_total(a: Seq<char>, b: Seq<char>)
    ensures
        text_at_most(a, b) || text_at_most(b, a),
        text_at_most(a, b) && text_at_most(b, a) ==> a == b,
        text_at_most(a, a),
    decreases a.len(),
{
    if a.len() > 0 {
        dictionary_order_is_total(a.drop_first(), a.drop_first());
    }
    if a.len() > 0 && b.len() > 0 && a[0] == b[0] {
        dictionary_order_is_total(a.drop_first(), b.drop_first());
        if a.drop_first() == b.drop_first() {
            assert(a =~= seq![a[0]] + a.drop_first());
            assert(b =~= seq![b[0]] + b.drop_first());
        }
    } else if a.len() == 0 && b.len() == 0 {
        assert(a =~= b);
    }
}

/// Dictionary order is transitive.
pub proof fn dictionary_order_is_transitive(a: Seq<char>, b: Seq<char>, c: Seq<char>)
    requires
        text_at_most(a, b),
        text_at_most(b, c),
    ensures
        text_at_most(a, c),
    decreases a.len(),
{
    if a.len() > 0 && b.len() > 0 && c.len() > 0 && a[0] == b[0] && b[0] == c[0] {
        dictionary_order_is_transitive(a.drop_first(), b.drop_first(), c.drop_first());
    }
}

/// The characters of `s`, in order.
pub fn chars_of(s: &str) -> (r: Vec<char>)
    ensures
        r@ == s@,
{
    let mut out: Vec<char> = Vec::new();
    for c in it: s.chars()
        invariant
            out@ == it.seq().take(it.index() as int),
            it.seq() == s@,
    {
        out.push(c);
    }
    assert(s@.take(s@.len() as int) == s@);
    out
}

/// Whether one run of characters comes no later than another in dictionary
/// order.
pub fn is_chars_at_most(a: &Vec<char>, b: &Vec<char>) -> (r: bool)
    ensures
        r == text_at_most(a@, b@),
{
    let mut i: usize = 0;
    assert(a@.skip(0) == a@ && b@.skip(0) == b@);
    while i < a.len() && i < b.len()
        invariant
            i <= a.len(),
            i <= b.len(),
            text_at_most(a@, b@) == text_at_most(a@.skip(i as int), b@.skip(i as int)),
        decreases a.len() - i,
    {
        if a[i] != b[i] {
            return a[i] < b[i];
        }
        assert(a@.skip(i as int).drop_first() == a@.skip(i + 1));
        assert(b@.skip(i as int).drop_first() == b@.skip(i + 1));
        i = i + 1;
    }
    i == a.len()
}

/// Whether `a` comes no later than `b` in dictionary order.
pub fn is_text_at_most(a: &str, b: &str) -> (r: bool)
    ensures
        r == text_at_most(a@, b@),
{
    is_chars_at_most(&chars_of(a), &chars_of(b))
}

/// What comes before the first `mark`: all of the text when there is none.
pub open spec fn before_first(s: Seq<char>, mark: char) -> Seq<char> {
    match s.index_of_first(mark) {
        Some(i) => s.take(i),
        None => s,
    }
}

/// What comes after the last `mark`: all of the text when there is none.
pub open spec fn after_last(s: Seq<char>, mark: char) -> Seq<char> {
    match s.index_of_last(mark) {
        Some(i) => s.skip(i + 1),
        None => s,
    }
}

/// Where `mark` first occurs.
pub fn position_of(s: &Vec<char>, mark: char) -> (r: Option<usize>)
    ensures
        match (r, s@.index_of_first(mark)) {
            (Some(i), Some(j)) => i == j,
            (None, None) => true,
            _ => false,
        },
        r matches Some(i) ==> i < s.len(),
{
    let mut i: usize = 0;
    while i < s.len()
        invariant
            i <= s.len(),
            forall|j: int| 0 <= j < i ==> s@[j] != mark,
        decreases s.len() - i,
    {
        if s[i] == mark {
            proof {
                assert(s@[i as int] == mark);
                s@.index_of_first_ensures(mark);
            }
            return Some(i);
        }
        i = i + 1;
    }
    proof {
        s@.index_of_first_ensures(mark);
    }
    None
}

/// Where `mark` last occurs.
pub fn last_position_of(s: &Vec<char>, mark: char) -> (r: Option<usize>)
    ensures
        match (r, s@.index_of_last(mark)) {
            (Some(i), Some(j)) => i == j,
            (None, None) => true,
            _ => false,
        },
        r matches Some(i) ==> i < s.len(),
{
    let mut i: usize = s.len();
    while i > 0
        invariant
            i <= s.len(),
            forall|j: int| i <= j < s.len() ==> s@[j] != mark,
        decreases i,
    {
        i = i - 1;
        if s[i] == mark {
            proof {
                assert(s@[i as int] == mark);
                s@.index_of_last_ensures(mark);
            }
            return Some(i);
        }
    }
    proof {
        s@.index_of_last_ensures(mark);
    }
    None
}

/// The text before the first `mark`.
pub fn head_before<'a>(s: &'a str, mark: char) -> (r: &'a str)
    ensures
        r@ == before_first(s@, mark),
{
    let chars: Vec<char> = chars_of(s);
    match position_of(&chars, mark) {
        Some(i) => s.substring_char(0, i),
        None => s,
    }
}

/// The text after the last `mark`.
pub fn tail_after<'a>(s: &'a str, mark: char) -> (r: &'a str)
    ensures
        r@ == after_last(s@, mark),
{
    let chars: Vec<char> = chars_of(s);
    match last_position_of(&chars, mark) {
        Some(i) => s.substring_char(i + 1, chars.len()),
        None => s,
    }
}

/// The parts one after another, `separator` between neighbours.
pub open spec fn joined(parts: Seq<Seq<char>>, separator: Seq<char>) -> Seq<char>
    decreases parts.len(),
{
    if parts.len() == 0 {
        Seq::empty()
    } else if parts.len() == 1 {
        parts[0]
    } else {
        joined(parts.drop_last(), separator) + separator + parts.last()
    }
}

/// Join the parts with `separator`.
pub fn join(parts: &Vec<String>, separator: &str) -> (r: String)
    ensures
        r@ == joined(parts.deep_view(), separator@),
{
    let mut out: String = String::new();
    let mut i: usize = 0;
    let ghost all: Seq<Seq<char>> = parts.deep_view();
    while i < parts.len()
        invariant
            i <= parts.len(),
            all == parts.deep_view(),
            out@ == joined(all.take(i as int), separator@),
        decreases parts.len() - i,
    {
        assert(all.take(i + 1).drop_last() == all.take(i as int));
        assert(all.take(i + 1).last() == parts@[i as int]@);
        if i > 0 {
            out.append(separator);
        }
        out.append(parts[i].as_str());
        if i == 0 {
            assert(out@ == all[0]);
        }
        i = i + 1;
    }
    assert(all.take(parts.len() as int) == all);
    out
}

/// Unicode white space, the characters a line is trimmed of.
pub open spec fn is_space(c: char) -> bool {
    ||| '\u{9}' <= c <= '\u{d}'
    ||| c == ' '
    ||| c == '\u{85}'
    ||| c == '\u{a0}'
    ||| c == '\u{1680}'
    ||| '\u{2000}' <= c <= '\u{200a}'
    ||| c == '\u{2028}'
    ||| c == '\u{2029}'
    ||| c == '\u{202f}'
    ||| c == '\u{205f}'
    ||| c == '\u{3000}'
}

/// The text without the white space it ends in.
pub open spec fn trimmed(s: Seq<char>) -> Seq<char>
    decreases s.len(),
{
    if s.len() > 0 && is_space(s.last()) {
        trimmed(s.drop_last())
    } else {
        s
    }
}

fn is_space_char(c: char) -> (r: bool)
    ensures
        r == is_space(c),
{
    ('\u{9}' <= c && c <= '\u{d}') || c == ' ' || c == '\u{85}' || c == '\u{a0}' || c == '\u{1680}'
        || ('\u{2000}' <= c && c <= '\u{200a}') || c == '\u{2028}' || c == '\u{2029}' || c
        == '\u{202f}' || c == '\u{205f}' || c == '\u{3000}'
}

/// Drop trailing white space.
pub fn trim_end<'a>(s: &'a str) -> (r: &'a str)
    ensures
        r@ == trimmed(s@),
{
    let chars: Vec<char> = chars_of(s);
    let mut end: usize = chars.len();
    assert(s@.take(end as int) == s@);
    while end > 0 && is_space_char(chars[end - 1])
        invariant
            chars@ == s@,
            end <= chars.len(),
            trimmed(s@) == trimmed(s@.take(end as int)),
        decreases end,
    {
        assert(s@.take(end as int).drop_last() == s@.take(end - 1));
        end = end - 1;
    }
    s.substring_char(0, end)
}

/// Whether the text holds one of the marks.
pub fn holds_any(s: &str, marks: &Vec<char>) -> (r: bool)
    ensures
        r == exists|i: int| 0 <= i < s@.len() && marks@.contains(#[trigger] s@[i]),
{
    let chars: Vec<char> = chars_of(s);
    let mut i: usize = 0;
    while i < chars.len()
        invariant
            chars@ == s@,
            i <= chars.len(),
            forall|j: int| 0 <= j < i ==> !marks@.contains(#[trigger] s@[j]),
        decreases chars.len() - i,
    {
        let found: Option<usize> = position_of(marks, chars[i]);
        proof {
            marks@.index_of_first_ensures(s@[i as int]);
        }
        if found.is_some() {
            assert(marks@.contains(s@[i as int]));
            return true;
        }
        i = i + 1;
    }
    false
}

/// One decimal digit.
pub open spec fn digit(d: nat) -> char {
    if d == 0 {
        '0'
    } else if d == 1 {
        '1'
    } else if d == 2 {
        '2'
    } else if d == 3 {
        '3'
    } else if d == 4 {
        '4'
    } else if d == 5 {
        '5'
    } else if d == 6 {
        '6'
    } else if d == 7 {
        '7'
    } else if d == 8 {
        '8'
    } else {
        '9'
    }
}

/// A number in decimal, without leading zeros.
pub open spec fn decimal(n: nat) -> Seq<char>
    decreases n,
{
    if n < 10 {
        seq![digit(n)]
    } else {
        decimal(n / 10).push(digit(n % 10))
    }
}

/// A number in decimal, a minus sign before a negative one.
pub open spec fn signed_decimal(n: int) -> Seq<char> {
    if n < 0 {
        "-"@ + decimal((-n) as nat)
    } else {
        decimal(n as nat)
    }
}

fn digit_text(d: u64) -> (r: &'static str)
    requires
        d < 10,
    ensures
        r@ == seq![digit(d as nat)],
{
    proof {
        reveal_strlit("0");
        reveal_strlit("1");
        reveal_strlit("2");
        reveal_strlit("3");
        reveal_strlit("4");
        reveal_strlit("5");
        reveal_strlit("6");
        reveal_strlit("7");
        reveal_strlit("8");
        reveal_strlit("9");
    }
    if d == 0 {
        "0"
    } else if d == 1 {
        "1"
    } else if d == 2 {
        "2"
    } else if d == 3 {
        "3"
    } else if d == 4 {
        "4"
    } else if d == 5 {
        "5"
    } else if d == 6 {
        "6"
    } else if d == 7 {
        "7"
    } else if d == 8 {
        "8"
    } else {
        "9"
    }
}

/// Write a number in decimal.
pub fn decimal_text(n: u64) -> (r: String)
    ensures
        r@ == decimal(n as nat),
    decreases n,
{
    if n < 10 {
        digit_text(n).to_string()
    } else {
        let mut out: String = decimal_text(n / 10);
        out.append(digit_text(n % 10));
        assert(out@ == decimal((n / 10) as nat) + seq![digit((n % 10) as nat)]);
        out
    }
}

/// Write a signed number in decimal.
pub fn signed_text(n: i64) -> (r: String)
    ensures
        r@ == signed_decimal(n as int),
{
    if n < 0 {
        let size: u64 = (-(n as i128)) as u64;
        let mut out: String = "-".to_string();
        out.append(decimal_text(size).as_str());
        out
    } else {
        decimal_text(n as u64)
    }
}

pub open spec fn is_digit(c: char) -> bool {
    '0' <= c <= '9'
}

pub fn is_digit_char(c: char) -> (r: bool)
    ensures
        r == is_digit(c),
{
    '0' <= c && c <= '9'
}

pub open spec fn all_digits(s: Seq<char>) -> bool {
    forall|i: int| 0 <= i < s.len() ==> is_digit(#[trigger] s[i])
}

/// The number a run of decimal digits spells.
pub open spec fn digits_value(s: Seq<char>) -> nat
    decreases s.len(),
{
    if s.len() == 0 {
        0
    } else {
        (digits_value(s.drop_last()) * 10 + (s.last() as int - '0' as int)) as nat
    }
}

/// Writing a number and reading it back gives the number.
pub proof fn decimal_reads_back(n: nat)
    ensures
        all_digits(decimal(n)),
        decimal(n).len() > 0,
        digits_value(decimal(n)) == n,
    decreases n,
{
    if n < 10 {
        let s = decimal(n);
        assert(s.drop_last() =~= Seq::<char>::empty());
        assert(digits_value(s.drop_last()) == 0);
    } else {
        decimal_reads_back(n / 10);
        let s = decimal(n);
        assert(s.drop_last() =~= decimal(n / 10));
        assert forall|i: int| 0 <= i < s.len() implies is_digit(#[trigger] s[i]) by {
            if i < s.len() - 1 {
                assert(s[i] == decimal(n / 10)[i]);
            }
        }
    }
}

/// The signed number a text spells: an optional sign and at least one digit,
/// nothing else, within the range of `i64`.
pub open spec fn number_in(s: Seq<char>) -> Option<i64> {
    let negative = s.len() > 0 && s[0] == '-';
    let digits = if s.len() > 0 && (s[0] == '-' || s[0] == '+') {
        s.skip(1)
    } else {
        s
    };
    let value = if negative {
        -(digits_value(digits) as int)
    } else {
        digits_value(digits) as int
    };
    if digits.len() > 0 && all_digits(digits) && i64::MIN <= value <= i64::MAX {
        Some(value as i64)
    } else {
        None
    }
}

/// Read a signed number.
pub fn parse_number(s: &str) -> (r: Option<i64>)
    ensures
        r == number_in(s@),
{
    let chars: Vec<char> = chars_of(s);
    let negative: bool = chars.len() > 0 && chars[0] == '-';
    let start: usize = if chars.len() > 0 && (chars[0] == '-' || chars[0] == '+') {
        1
    } else {
        0
    };
    let ghost digits = if start == 1 {
        s@.skip(1)
    } else {
        s@
    };
    assert(digits == s@.skip(start as int));
    if start == chars.len() {
        return None;
    }
    let mut i: usize = start;
    let mut value: i128 = 0;
    let mut over: bool = false;
    while i < chars.len()
        invariant
            chars@ == s@,
            start <= i <= chars.len(),
            digits == s@.skip(start as int),
            digits == (if s@.len() > 0 && (s@[0] == '-' || s@[0] == '+') {
                s@.skip(1)
            } else {
                s@
            }),
            forall|j: int| 0 <= j < i - start ==> is_digit(#[trigger] digits[j]),
            over ==> digits_value(digits.take(i - start)) > 0x8000_0000_0000_0000,
            !over ==> digits_value(digits.take(i - start)) == value,
            0 <= value <= 0x8000_0000_0000_0000,
        decreases chars.len() - i,
    {
        let c: char = chars[i];
        if !is_digit_char(c) {
            assert(!is_digit(digits[i - start]));
            return None;
        }
        let d: i128 = (c as u32 - '0' as u32) as i128;
        assert(digits.take(i - start + 1).drop_last() == digits.take(i - start));
        assert(digits.take(i - start + 1).last() == c);
        if !over {
            let next: i128 = value * 10 + d;
            if next > 0x8000_0000_0000_0000 {
                over = true;
            } else {
                value = next;
            }
        }
        i = i + 1;
    }
    assert(digits.take(i - start) == digits);
    if over {
        return None;
    }
    if negative {
        Some((-value) as i64)
    } else if value <= 0x7fff_ffff_ffff_ffff {
        Some(value as i64)
    } else {
        None
    }
}

/// One text after another.
pub(crate) fn cat2(a: &str, b: &str) -> (r: String)
    ensures
        r@ == a@ + b@,
{
    let mut out: String = a.to_string();
    out.append(b);
    out
}

/// One text after another.
pub(crate) fn cat3(a: &str, b: &str, c: &str) -> (r: String)
    ensures
        r@ == a@ + b@ + c@,
{
    let mut out: String = cat2(a, b);
    out.append(c);
    out
}

/// One text after another.
pub(crate) fn cat5(a: &str, b: &str, c: &str, d: &str, e: &str) -> (r: String)
    ensures
        r@ == a@ + b@ + c@ + d@ + e@,
{
    let mut out: String = cat3(a, b, c);
    out.append(d);
    out.append(e);
    out
}

/// Whether a text is in a list.
pub(crate) fn holds_text(list: &Vec<String>, text: &String) -> (r: bool)
    ensures
        r == list.deep_view().contains(text@),
{
    let mut i: usize = 0;
    while i < list.len()
        invariant
            i <= list.len(),
            forall|j: int| 0 <= j < i ==> list.deep_view()[j] != text@,
        decreases list.len() - i,
    {
        if list[i] == *text {
            assert(list.deep_view()[i as int] == text@);
            return true;
        }
        i = i + 1;
    }
    false
}

} // verus!
