//! Versions, compared part by part rather than as text: 1.10 is newer than
//! 1.9.
//!
//! A version splits into parts at dots and dashes, and where digits meet
//! anything else. Parts rank in this order: `pre`, then nothing at all, then
//! text, then numbers. That is the order Nix itself sorts versions in.
use vstd::prelude::*;
use vstd::string::*;

use crate::order;
use crate::order::Ranked;
use crate::rows;
use crate::text;

verus! {

/// Whether a character separates the parts of a version.
pub open spec fn is_mark(c: char) -> bool {
    c == '.' || c == '-'
}

/// How many characters the text opens with that are all digits, or all
/// neither digits nor separators.
pub open spec fn run_len(s: Seq<char>, digits: bool) -> nat
    decreases s.len(),
{
    if s.len() > 0 && !is_mark(s[0]) && text::is_digit(s[0]) == digits {
        1 + run_len(s.drop_first(), digits)
    } else {
        0
    }
}

proof fn lemma_run_len(s: Seq<char>, digits: bool)
    ensures
        run_len(s, digits) <= s.len(),
    decreases s.len(),
{
    if s.len() > 0 {
        lemma_run_len(s.drop_first(), digits);
    }
}

/// The parts of a version, separators left out.
pub open spec fn parts_of(s: Seq<char>) -> Seq<Seq<char>>
    decreases s.len(),
    via parts_of_ends
{
    if s.len() == 0 {
        Seq::empty()
    } else if is_mark(s[0]) {
        parts_of(s.drop_first())
    } else {
        let n = run_len(s, text::is_digit(s[0])) as int;
        seq![s.take(n)] + parts_of(s.skip(n))
    }
}

#[via_fn]
proof fn parts_of_ends(s: Seq<char>) {
    if s.len() > 0 {
        lemma_run_len(s, text::is_digit(s[0]));
    }
}

/// Which of the four kinds a part is, lowest first.
pub open spec fn kind_of(part: Seq<char>) -> int {
    if part == "pre"@ {
        0
    } else if part.len() == 0 {
        1
    } else if text::all_digits(part) {
        3
    } else {
        2
    }
}

/// Whether one part ranks no higher than another: by kind, then texts in
/// dictionary order and numbers by value.
pub open spec fn part_at_most(a: Seq<char>, b: Seq<char>) -> bool {
    ||| kind_of(a) < kind_of(b)
    ||| kind_of(a) == kind_of(b) && (kind_of(a) == 2 ==> text::text_at_most(a, b)) && (kind_of(a)
        == 3 ==> text::digits_value(a) <= text::digits_value(b))
}

/// The first part, or nothing when there is none.
pub open spec fn head_of(parts: Seq<Seq<char>>) -> Seq<char> {
    if parts.len() > 0 {
        parts[0]
    } else {
        Seq::empty()
    }
}

/// The parts after the first.
pub open spec fn rest_of(parts: Seq<Seq<char>>) -> Seq<Seq<char>> {
    if parts.len() > 0 {
        parts.drop_first()
    } else {
        parts
    }
}

/// Part lists rank by the first parts that do not rank alike, the shorter
/// list read as if it went on with empty parts.
pub open spec fn parts_at_most(a: Seq<Seq<char>>, b: Seq<Seq<char>>) -> bool
    decreases a.len() + b.len(),
{
    if a.len() == 0 && b.len() == 0 {
        true
    } else if !part_at_most(head_of(b), head_of(a)) {
        true
    } else if !part_at_most(head_of(a), head_of(b)) {
        false
    } else {
        parts_at_most(rest_of(a), rest_of(b))
    }
}

/// Whether version `a` is no newer than version `b`.
pub open spec fn at_most(a: Seq<char>, b: Seq<char>) -> bool {
    parts_at_most(parts_of(a), parts_of(b))
}

proof fn lemma_part_is_total(a: Seq<char>, b: Seq<char>)
    ensures
        part_at_most(a, b) || part_at_most(b, a),
        part_at_most(a, a),
{
    text::dictionary_order_is_total(a, b);
    text::dictionary_order_is_total(a, a);
}

proof fn lemma_part_is_transitive(a: Seq<char>, b: Seq<char>, c: Seq<char>)
    requires
        part_at_most(a, b),
        part_at_most(b, c),
    ensures
        part_at_most(a, c),
{
    if kind_of(a) == 2 && kind_of(b) == 2 && kind_of(c) == 2 {
        text::dictionary_order_is_transitive(a, b, c);
    }
}

proof fn lemma_parts_are_total(a: Seq<Seq<char>>, b: Seq<Seq<char>>)
    ensures
        parts_at_most(a, b) || parts_at_most(b, a),
    decreases a.len() + b.len(),
{
    if a.len() > 0 || b.len() > 0 {
        lemma_part_is_total(head_of(a), head_of(b));
        if part_at_most(head_of(a), head_of(b)) && part_at_most(head_of(b), head_of(a)) {
            lemma_parts_are_total(rest_of(a), rest_of(b));
        }
    }
}

proof fn lemma_parts_are_transitive(
    a: Seq<Seq<char>>,
    b: Seq<Seq<char>>,
    c: Seq<Seq<char>>,
)
    requires
        parts_at_most(a, b),
        parts_at_most(b, c),
    ensures
        parts_at_most(a, c),
    decreases a.len() + b.len() + c.len(),
{
    if a.len() == 0 && b.len() == 0 && c.len() == 0 {
    } else {
        let x = head_of(a);
        let y = head_of(b);
        let z = head_of(c);
        lemma_part_is_total(x, y);
        lemma_part_is_total(y, z);
        lemma_part_is_total(x, z);
        if a.len() == 0 && b.len() == 0 {
            lemma_part_is_total(x, x);
        }
        if b.len() == 0 && c.len() == 0 {
            lemma_part_is_total(y, y);
        }
        assert(part_at_most(x, y));
        assert(part_at_most(y, z));
        lemma_part_is_transitive(x, y, z);
        if part_at_most(z, x) {
            lemma_part_is_transitive(y, z, x);
            lemma_part_is_transitive(z, x, y);
            if a.len() == 0 && b.len() == 0 {
                assert(rest_of(a) == a && rest_of(b) == b);
            }
            if b.len() == 0 && c.len() == 0 {
                assert(rest_of(c) == c && rest_of(b) == b);
            }
            assert(parts_at_most(rest_of(a), rest_of(b)));
            assert(parts_at_most(rest_of(b), rest_of(c)));
            lemma_parts_are_transitive(rest_of(a), rest_of(b), rest_of(c));
        }
    }
}

/// Of any two versions, one is no newer than the other.
pub proof fn versions_are_ranked(a: Seq<char>, b: Seq<char>)
    ensures
        at_most(a, b) || at_most(b, a),
{
    lemma_parts_are_total(parts_of(a), parts_of(b));
}

/// No version is newer than one that is no newer than itself, however many
/// steps apart.
pub proof fn version_order_is_transitive(a: Seq<char>, b: Seq<char>, c: Seq<char>)
    requires
        at_most(a, b),
        at_most(b, c),
    ensures
        at_most(a, c),
{
    lemma_parts_are_transitive(parts_of(a), parts_of(b), parts_of(c));
}

/// Split a version into its parts.
pub fn split_parts(s: &str) -> (r: Vec<Vec<char>>)
    ensures
        r.deep_view() == parts_of(s@),
{
    let chars: Vec<char> = text::chars_of(s);
    let mut out: Vec<Vec<char>> = Vec::new();
    let mut i: usize = 0;
    assert(s@.skip(0) == s@);
    assert(out.deep_view() + parts_of(s@) == parts_of(s@));
    while i < chars.len()
        invariant
            chars@ == s@,
            i <= chars.len(),
            out.deep_view() + parts_of(s@.skip(i as int)) == parts_of(s@),
        decreases chars.len() - i,
    {
        let c: char = chars[i];
        let ghost rest = s@.skip(i as int);
        assert(rest[0] == c);
        if c == '.' || c == '-' {
            assert(rest.drop_first() == s@.skip(i + 1));
            i = i + 1;
        } else {
            let digits: bool = text::is_digit_char(c);
            let mut part: Vec<char> = Vec::new();
            let mut j: usize = i;
            assert(rest.skip(0) == rest);
            while j < chars.len() && chars[j] != '.' && chars[j] != '-' && text::is_digit_char(
                chars[j],
            ) == digits
                invariant
                    chars@ == s@,
                    i <= j <= chars.len(),
                    rest == s@.skip(i as int),
                    part@ == rest.take(j - i),
                    run_len(rest, digits) == (j - i) + run_len(rest.skip(j - i), digits),
                decreases chars.len() - j,
            {
                assert(rest.skip(j - i)[0] == chars@[j as int]);
                assert(rest.skip(j - i).drop_first() == rest.skip(j + 1 - i));
                part.push(chars[j]);
                assert(part@ =~= rest.take(j + 1 - i));
                j = j + 1;
            }
            assert(run_len(rest.skip(j - i), digits) == 0) by {
                if j < chars.len() {
                    assert(rest.skip(j - i)[0] == chars@[j as int]);
                }
            }
            assert(run_len(rest, digits) > 0);
            let ghost before = out.deep_view();
            let ghost found = part@;
            assert(part.deep_view() =~= found);
            out.push(part);
            assert(out.deep_view() =~= before.push(found));
            assert(rest.skip(j - i) == s@.skip(j as int));
            assert(parts_of(rest) == seq![found] + parts_of(s@.skip(j as int)));
            assert(out.deep_view() + parts_of(s@.skip(j as int)) =~= before + parts_of(rest));
            i = j;
        }
    }
    assert(s@.skip(i as int) =~= Seq::<char>::empty());
    assert(out.deep_view() + parts_of(s@.skip(i as int)) =~= out.deep_view());
    out
}

/// Whether one run of digits spells a number no larger than another.
fn is_value_at_most(a: &Vec<char>, b: &Vec<char>) -> (r: bool)
    requires
        text::all_digits(a@),
        text::all_digits(b@),
    ensures
        r == (text::digits_value(a@) <= text::digits_value(b@)),
{
    let n: usize = if a.len() > b.len() {
        a.len()
    } else {
        b.len()
    };
    let skip_a: usize = n - a.len();
    let skip_b: usize = n - b.len();
    let mut i: usize = 0;
    let mut less: bool = false;
    let mut more: bool = false;
    let mut at_a: usize = 0;
    let mut at_b: usize = 0;
    assert(a@.take(0) == Seq::<char>::empty() && b@.take(0) == Seq::<char>::empty());
    while i < n
        invariant
            text::all_digits(a@),
            text::all_digits(b@),
            skip_a == n - a.len(),
            skip_b == n - b.len(),
            i <= n,
            at_a == (if i <= skip_a {
                0
            } else {
                i - skip_a
            }),
            at_b == (if i <= skip_b {
                0
            } else {
                i - skip_b
            }),
            less == (text::digits_value(a@.take(at_a as int)) < text::digits_value(
                b@.take(at_b as int),
            )),
            more == (text::digits_value(a@.take(at_a as int)) > text::digits_value(
                b@.take(at_b as int),
            )),
        decreases n - i,
    {
        let da: char = if i < skip_a {
            '0'
        } else {
            a[at_a]
        };
        let db: char = if i < skip_b {
            '0'
        } else {
            b[at_b]
        };
        if !less && !more {
            less = da < db;
            more = db < da;
        }
        let ghost va = text::digits_value(a@.take(at_a as int));
        let ghost vb = text::digits_value(b@.take(at_b as int));
        if i >= skip_a {
            assert(text::is_digit(a@[at_a as int]));
            assert(a@.take(at_a + 1).drop_last() == a@.take(at_a as int));
            assert(text::digits_value(a@.take(at_a + 1)) == va * 10 + (da as int - '0' as int));
            at_a = at_a + 1;
        } else {
            assert(text::digits_value(a@.take(0)) == 0);
        }
        if i >= skip_b {
            assert(text::is_digit(b@[at_b as int]));
            assert(b@.take(at_b + 1).drop_last() == b@.take(at_b as int));
            assert(text::digits_value(b@.take(at_b + 1)) == vb * 10 + (db as int - '0' as int));
            at_b = at_b + 1;
        } else {
            assert(text::digits_value(b@.take(0)) == 0);
        }
        i = i + 1;
    }
    assert(a@.take(a.len() as int) == a@ && b@.take(b.len() as int) == b@);
    !more
}

fn kind(part: &Vec<char>) -> (r: u8)
    ensures
        r == kind_of(part@),
{
    proof {
        reveal_strlit("pre");
    }
    if part.len() == 3 && part[0] == 'p' && part[1] == 'r' && part[2] == 'e' {
        assert(part@ =~= "pre"@);
        return 0;
    }
    if part.len() == 0 {
        return 1;
    }
    let mut i: usize = 0;
    while i < part.len()
        invariant
            i <= part.len(),
            part.len() > 0,
            part@ != "pre"@,
            forall|j: int| 0 <= j < i ==> text::is_digit(#[trigger] part@[j]),
        decreases part.len() - i,
    {
        if !text::is_digit_char(part[i]) {
            assert(!text::is_digit(part@[i as int]));
            return 2;
        }
        i = i + 1;
    }
    3
}

fn is_part_at_most(a: &Vec<char>, b: &Vec<char>) -> (r: bool)
    ensures
        r == part_at_most(a@, b@),
{
    let ka: u8 = kind(a);
    let kb: u8 = kind(b);
    if ka != kb {
        ka < kb
    } else if ka == 2 {
        text::is_chars_at_most(a, b)
    } else if ka == 3 {
        is_value_at_most(a, b)
    } else {
        true
    }
}

/// Whether version `a` is no newer than version `b`.
pub fn is_at_most(a: &str, b: &str) -> (r: bool)
    ensures
        r == at_most(a@, b@),
{
    let left: Vec<Vec<char>> = split_parts(a);
    let right: Vec<Vec<char>> = split_parts(b);
    let none: Vec<char> = Vec::new();
    let ghost lp = left.deep_view();
    let ghost rp = right.deep_view();
    let mut i: usize = 0;
    assert(none@ == Seq::<char>::empty());
    assert(lp.skip(0) == lp && rp.skip(0) == rp);
    while i < left.len() || i < right.len()
        invariant
            lp == left.deep_view(),
            rp == right.deep_view(),
            lp == parts_of(a@),
            rp == parts_of(b@),
            none@ == Seq::<char>::empty(),
            parts_at_most(lp, rp) == parts_at_most(
                lp.skip(if i <= lp.len() {
                    i as int
                } else {
                    lp.len() as int
                }),
                rp.skip(if i <= rp.len() {
                    i as int
                } else {
                    rp.len() as int
                }),
            ),
        decreases left.len() + right.len() - i,
    {
        let ghost x = lp.skip(if i <= lp.len() {
            i as int
        } else {
            lp.len() as int
        });
        let ghost y = rp.skip(if i <= rp.len() {
            i as int
        } else {
            rp.len() as int
        });
        let pa: &Vec<char> = if i < left.len() {
            &left[i]
        } else {
            &none
        };
        let pb: &Vec<char> = if i < right.len() {
            &right[i]
        } else {
            &none
        };
        proof {
            if i < left.len() {
                assert(left@[i as int].deep_view() =~= left@[i as int]@);
                assert(x[0] == lp[i as int]);
                assert(x.drop_first() =~= lp.skip(i + 1));
            } else {
                assert(x =~= Seq::<Seq<char>>::empty());
            }
            if i < right.len() {
                assert(right@[i as int].deep_view() =~= right@[i as int]@);
                assert(y[0] == rp[i as int]);
                assert(y.drop_first() =~= rp.skip(i + 1));
            } else {
                assert(y =~= Seq::<Seq<char>>::empty());
            }
            assert(head_of(x) == pa@);
            assert(head_of(y) == pb@);
        }
        if !is_part_at_most(pb, pa) {
            return true;
        }
        if !is_part_at_most(pa, pb) {
            return false;
        }
        i = i + 1;
        proof {
            assert(rest_of(x) =~= lp.skip(if i <= lp.len() {
                i as int
            } else {
                lp.len() as int
            }));
            assert(rest_of(y) =~= rp.skip(if i <= rp.len() {
                i as int
            } else {
                rp.len() as int
            }));
        }
    }
    true
}

/// How two versions rank.
#[derive(Clone, Copy, PartialEq, Eq, Structural, Debug)]
pub enum Rank {
    Older,
    Same,
    Newer,
}

/// How version `a` ranks against version `b`.
pub fn compare(a: &str, b: &str) -> (r: Rank)
    ensures
        r is Older <==> !at_most(b@, a@),
        r is Newer <==> !at_most(a@, b@),
{
    proof {
        versions_are_ranked(a@, b@);
    }
    if !is_at_most(b, a) {
        Rank::Older
    } else if !is_at_most(a, b) {
        Rank::Newer
    } else {
        Rank::Same
    }
}

/// A version as something to sort by.
pub struct ByVersion {
    pub version: String,
}

impl DeepView for ByVersion {
    type V = Seq<char>;

    open spec fn deep_view(&self) -> Seq<char> {
        self.version@
    }
}

impl Ranked for ByVersion {
    open spec fn at_most(a: Seq<char>, b: Seq<char>) -> bool {
        at_most(a, b)
    }

    proof fn rank_is_total(a: Seq<char>, b: Seq<char>) {
        versions_are_ranked(a, b);
    }

    proof fn rank_is_transitive(a: Seq<char>, b: Seq<char>, c: Seq<char>) {
        version_order_is_transitive(a, b, c);
    }

    fn is_at_most(&self, other: &Self) -> (r: bool) {
        is_at_most(self.version.as_str(), other.version.as_str())
    }
}

/// The versions from the oldest to the newest.
pub open spec fn oldest_first(versions: Seq<Seq<char>>) -> Seq<Seq<char>> {
    order::sorted_by::<Seq<char>, ByVersion>(versions, versions)
}

/// Sort versions from the oldest to the newest.
pub fn sort(versions: &mut Vec<String>)
    ensures
        final(versions).deep_view() == oldest_first(old(versions).deep_view()),
{
    let keys: Vec<ByVersion> = rows::map_rows(
        versions,
        |version: &String| -> (key: ByVersion)
            ensures
                key.deep_view() == version.deep_view()
            { ByVersion { version: version.clone() } },
        Ghost(|version: Seq<char>| version),
    );
    assert(keys.deep_view() =~= versions.deep_view());
    *versions = order::sort_by_keys(versions, &keys);
}

} // verus!
