//! Matching attribute names against search patterns.
//!
//! A pattern is a GLOB or a LIKE pattern as SQLite reads it, so SQLite is what
//! matches it: a scratch database, empty and in memory, evaluates the operator
//! on the pattern and a name.
use vstd::prelude::*;

use crate::db::ByText;
use crate::order;
use crate::order::Ranked;
use crate::rows;
use crate::text;
use crate::text::cat3;

verus! {

/// A connection of `rusqlite`, seen from here as a closed box.
#[verifier::external_type_specification]
#[verifier::external_body]
pub struct ExConnection(rusqlite::Connection);

/// An error of `rusqlite`, seen from here as a closed box.
#[verifier::external_type_specification]
#[verifier::external_body]
pub struct ExSqliteError(rusqlite::Error);

/// What SQLite's GLOB operator makes of a pattern and a text.
pub uninterp spec fn sqlite_glob(pattern: Seq<char>, text: Seq<char>) -> bool;

/// What SQLite's LIKE operator makes of a pattern and a text.
pub uninterp spec fn sqlite_like(pattern: Seq<char>, text: Seq<char>) -> bool;

/// The characters that make a GLOB pattern more than plain text.
pub open spec fn is_glob_mark(c: char) -> bool {
    c == '*' || c == '?' || c == '['
}

/// The characters that make a LIKE pattern more than plain text.
pub open spec fn is_like_mark(c: char) -> bool {
    c == '%' || c == '_'
}

pub open spec fn holds_glob_mark(s: Seq<char>) -> bool {
    exists|i: int| 0 <= i < s.len() && is_glob_mark(#[trigger] s[i])
}

pub open spec fn holds_like_mark(s: Seq<char>) -> bool {
    exists|i: int| 0 <= i < s.len() && is_like_mark(#[trigger] s[i])
}

/// Whether a text holds the NUL character, which SQLite reads as its end.
pub open spec fn holds_nul(s: Seq<char>) -> bool {
    s.contains('\0')
}

/// Whether a text has another somewhere inside it.
pub open spec fn holds(s: Seq<char>, part: Seq<char>) -> bool {
    exists|i: int| 0 <= i && i + part.len() <= s.len() && #[trigger] s.subrange(i, i + part.len()) == part
}

/// A character with the case of an ASCII letter taken off.
pub open spec fn lower(c: char) -> char {
    if 'A' <= c <= 'Z' {
        (c as u32 + 32) as char
    } else {
        c
    }
}

/// A text with the case of its ASCII letters taken off.
pub open spec fn lowered(s: Seq<char>) -> Seq<char> {
    s.map_values(|c: char| lower(c))
}

/// An empty SQLite database in memory, to evaluate operators on.
pub struct Scratch {
    conn: rusqlite::Connection,
}

impl Scratch {
    /// Calls `rusqlite::Connection::open_in_memory`. Nothing is claimed of the
    /// result: whether a database can be opened is up to SQLite and to memory.
    #[verifier::external_body]
    fn open() -> (r: Result<Scratch, rusqlite::Error>) {
        Ok(Scratch { conn: rusqlite::Connection::open_in_memory()? })
    }

    /// Calls `rusqlite::Connection::query_row` on `SELECT ?1 GLOB ?2`. An
    /// answer is what GLOB makes of the pattern and the text, and of a part
    /// without wildcards between two stars it is whether the text holds the
    /// part, unless there is a NUL in either. That there is an answer is not
    /// claimed: SQLite refuses a pattern that is too long.
    #[verifier::external_body]
    fn glob(&self, pattern: &str, text: &str) -> (r: Result<bool, rusqlite::Error>)
        ensures
            r matches Ok(b) ==> b == sqlite_glob(pattern@, text@),
            r matches Ok(b) ==> forall|part: Seq<char>|
                pattern@ == #[trigger] ("*"@ + part + "*"@) && !holds_glob_mark(part) && !holds_nul(part)
                    && !holds_nul(text@) ==> b == holds(text@, part),
    {
        self.conn.query_row("SELECT ?1 GLOB ?2", [text, pattern], |row| row.get(0))
    }

    /// Calls `rusqlite::Connection::query_row` on `SELECT ?1 LIKE ?2`. An
    /// answer is what LIKE makes of the pattern and the text, and of a part
    /// without wildcards between two percent signs it is whether the text
    /// holds the part, upper and lower case ASCII letters taken to be the same,
    /// unless there is a NUL in either. That there is an answer is not claimed:
    /// SQLite refuses a pattern that is too long.
    #[verifier::external_body]
    fn like(&self, pattern: &str, text: &str) -> (r: Result<bool, rusqlite::Error>)
        ensures
            r matches Ok(b) ==> b == sqlite_like(pattern@, text@),
            r matches Ok(b) ==> forall|part: Seq<char>|
                pattern@ == #[trigger] ("%"@ + part + "%"@) && !holds_like_mark(part) && !holds_nul(part)
                    && !holds_nul(text@) ==> b == holds(lowered(text@), lowered(part)),
    {
        self.conn.query_row("SELECT ?1 LIKE ?2", [text, pattern], |row| row.get(0))
    }
}

/// The GLOB pattern a search stands for: itself when it has wildcards, else
/// the text anywhere.
pub open spec fn glob_for(pattern: Seq<char>) -> Seq<char> {
    if holds_glob_mark(pattern) {
        pattern
    } else {
        "*"@ + pattern + "*"@
    }
}

/// The LIKE pattern a search stands for: itself when it has wildcards, else
/// the text anywhere.
pub open spec fn like_for(pattern: Seq<char>) -> Seq<char> {
    if holds_like_mark(pattern) {
        pattern
    } else {
        "%"@ + pattern + "%"@
    }
}

/// Whether a search finds a name: a pattern without wildcards is looked for
/// anywhere in the name, and any other is what GLOB makes of it. So is one
/// where a NUL is in the way.
pub open spec fn glob_finds(pattern: Seq<char>, name: Seq<char>) -> bool {
    if holds_glob_mark(pattern) || holds_nul(pattern) || holds_nul(name) {
        sqlite_glob(glob_for(pattern), name)
    } else {
        holds(name, pattern)
    }
}

/// Whether a search finds a name when upper and lower case ASCII letters are
/// taken to be the same: a pattern without wildcards is looked for anywhere in
/// the name, and any other is what LIKE makes of it. So is one where a NUL is
/// in the way.
pub open spec fn like_finds(pattern: Seq<char>, name: Seq<char>) -> bool {
    if holds_like_mark(pattern) || holds_nul(pattern) || holds_nul(name) {
        sqlite_like(like_for(pattern), name)
    } else {
        holds(lowered(name), lowered(pattern))
    }
}

/// The GLOB pattern a search stands for.
pub fn glob_pattern(pattern: &str) -> (r: String)
    ensures
        r@ == glob_for(pattern@),
{
    let marks: Vec<char> = vec!['*', '?', '['];
    let wild: bool = text::holds_any(pattern, &marks);
    proof {
        assert forall|c: char| #[trigger] marks@.contains(c) <==> is_glob_mark(c) by {
            assert(marks@[0] == '*' && marks@[1] == '?' && marks@[2] == '[');
        }
        if wild {
            let i = choose|i: int| 0 <= i < pattern@.len() && marks@.contains(#[trigger] pattern@[i]);
            assert(is_glob_mark(pattern@[i]));
        }
        if holds_glob_mark(pattern@) {
            let i = choose|i: int| 0 <= i < pattern@.len() && is_glob_mark(#[trigger] pattern@[i]);
            assert(marks@.contains(pattern@[i]));
        }
    }
    if wild {
        pattern.to_string()
    } else {
        cat3("*", pattern, "*")
    }
}

/// The LIKE pattern a search stands for.
pub fn like_pattern(pattern: &str) -> (r: String)
    ensures
        r@ == like_for(pattern@),
{
    let marks: Vec<char> = vec!['%', '_'];
    let wild: bool = text::holds_any(pattern, &marks);
    proof {
        assert forall|c: char| #[trigger] marks@.contains(c) <==> is_like_mark(c) by {
            assert(marks@[0] == '%' && marks@[1] == '_');
        }
        if wild {
            let i = choose|i: int| 0 <= i < pattern@.len() && marks@.contains(#[trigger] pattern@[i]);
            assert(is_like_mark(pattern@[i]));
        }
        if holds_like_mark(pattern@) {
            let i = choose|i: int| 0 <= i < pattern@.len() && is_like_mark(#[trigger] pattern@[i]);
            assert(marks@.contains(pattern@[i]));
        }
    }
    if wild {
        pattern.to_string()
    } else {
        cat3("%", pattern, "%")
    }
}

/// The names whose flag is set.
pub open spec fn flagged(names: Seq<Seq<char>>, flags: Seq<bool>) -> Seq<Seq<char>>
    decreases flags.len(),
{
    if flags.len() == 0 {
        Seq::empty()
    } else if flags.last() {
        flagged(names, flags.drop_last()).push(names[flags.len() - 1])
    } else {
        flagged(names, flags.drop_last())
    }
}

/// The names whose flag is set, in dictionary order, `limit` of them at most.
pub open spec fn first_flagged(names: Seq<Seq<char>>, flags: Seq<bool>, limit: nat) -> Seq<
    Seq<char>,
> {
    let found = flagged(names, flags);
    let ranked = order::sorted_by::<Seq<char>, ByText>(found, found);
    if ranked.len() <= limit {
        ranked
    } else {
        ranked.take(limit as int)
    }
}

/// Pick out the names a search matched: in dictionary order, `limit` of them
/// at most.
pub fn pick_flagged(names: &Vec<String>, flags: &Vec<bool>, limit: usize) -> (r: Vec<String>)
    requires
        names.len() == flags.len(),
    ensures
        r.deep_view() == first_flagged(names.deep_view(), flags@, limit as nat),
{
    let mut found: Vec<String> = Vec::new();
    let mut i: usize = 0;
    let ghost all = names.deep_view();
    assert(found.deep_view() =~= Seq::<Seq<char>>::empty());
    while i < names.len()
        invariant
            i <= names.len(),
            names.len() == flags.len(),
            all == names.deep_view(),
            found.deep_view() == flagged(all, flags@.take(i as int)),
        decreases names.len() - i,
    {
        assert(flags@.take(i + 1).drop_last() =~= flags@.take(i as int));
        if flags[i] {
            let ghost before = found.deep_view();
            found.push(names[i].clone());
            assert(found.deep_view() =~= before.push(all[i as int]));
        }
        i = i + 1;
    }
    assert(flags@.take(i as int) =~= flags@);
    let keys: Vec<ByText> = rows::map_rows(
        &found,
        |name: &String| -> (key: ByText)
            ensures
                key.deep_view() == name.deep_view()
            { ByText { text: name.clone() } },
        Ghost(|name: Seq<char>| name),
    );
    assert(keys.deep_view() =~= found.deep_view());
    let mut ranked: Vec<String> = order::sort_by_keys(&found, &keys);
    if ranked.len() > limit {
        let ghost before = ranked.deep_view();
        ranked.truncate(limit);
        assert(ranked.deep_view() =~= before.take(limit as int));
    }
    ranked
}

proof fn lemma_flagged(names: Seq<Seq<char>>, flags: Seq<bool>, name: Seq<char>)
    ensures
        flagged(names, flags).contains(name) <==> exists|i: int|
            0 <= i < flags.len() && #[trigger] flags[i] && names[i] == name,
        flagged(names, flags).len() == flags.filter(|flag: bool| flag).len(),
    decreases flags.len(),
{
    reveal(Seq::filter);
    if flags.len() > 0 {
        let fewer = flags.drop_last();
        lemma_flagged(names, fewer, name);
        let kept = flagged(names, fewer);
        let n = flags.len() - 1;
        if kept.contains(name) {
            let i = choose|i: int| 0 <= i < fewer.len() && #[trigger] fewer[i] && names[i] == name;
            assert(flags[i] && names[i] == name);
        }
        if flags[n] {
            let all = kept.push(names[n]);
            if kept.contains(name) {
                let w = choose|w: int| 0 <= w < kept.len() && kept[w] == name;
                assert(all[w] == name);
            }
            if names[n] == name {
                assert(all[kept.len() as int] == name);
            }
        }
        if exists|i: int| 0 <= i < flags.len() && #[trigger] flags[i] && names[i] == name {
            let i = choose|i: int| 0 <= i < flags.len() && #[trigger] flags[i] && names[i] == name;
            if i < n {
                assert(fewer[i] && names[i] == name);
            }
        }
    }
}

/// A search lists nothing it did not match, lists everything it matched unless
/// the limit cuts it short, and lists it in dictionary order.
pub proof fn listing_is_of_the_flagged(
    names: Seq<Seq<char>>,
    flags: Seq<bool>,
    limit: nat,
    name: Seq<char>,
)
    ensures
        first_flagged(names, flags, limit).contains(name) ==> exists|i: int|
            0 <= i < flags.len() && #[trigger] flags[i] && names[i] == name,
        flags.filter(|flag: bool| flag).len() <= limit && (exists|i: int|
            0 <= i < flags.len() && #[trigger] flags[i] && names[i] == name) ==> first_flagged(
            names,
            flags,
            limit,
        ).contains(name),
        first_flagged(names, flags, limit).len() == if flags.filter(|flag: bool| flag).len()
            <= limit {
            flags.filter(|flag: bool| flag).len()
        } else {
            limit
        },
        forall|p: int, q: int|
            0 <= p < q < first_flagged(names, flags, limit).len() ==> text::text_at_most(
                #[trigger] first_flagged(names, flags, limit)[p],
                #[trigger] first_flagged(names, flags, limit)[q],
            ),
{
    broadcast use vstd::seq_lib::group_to_multiset_ensures;

    let found = flagged(names, flags);
    let ranked = order::sorted_by::<Seq<char>, ByText>(found, found);
    let listed = first_flagged(names, flags, limit);
    lemma_flagged(names, flags, name);
    order::sorting_arranges::<Seq<char>, ByText>(found, found);
    assert(ranked.to_multiset().count(name) == found.to_multiset().count(name));
    assert(ranked.contains(name) <==> found.contains(name));
    if listed.contains(name) {
        let w = choose|w: int| 0 <= w < listed.len() && listed[w] == name;
        assert(ranked[w] == name);
    }
    assert forall|p: int, q: int| 0 <= p < q < listed.len() implies text::text_at_most(
        #[trigger] listed[p],
        #[trigger] listed[q],
    ) by {
        assert(ByText::at_most(ranked[p], ranked[q]));
    }
}

/// Which names a GLOB pattern matches, or nothing when SQLite would not say.
pub(crate) fn glob_flags(pattern: &str, names: &Vec<String>) -> (r: Option<Vec<bool>>)
    ensures
        names.len() == 0 ==> r is Some,
        r matches Some(flags) ==> flags@ == names.deep_view().map_values(
            |name: Seq<char>| sqlite_glob(pattern@, name),
        ),
        r matches Some(flags) ==> forall|j: int, part: Seq<char>|
            0 <= j < names.len() && pattern@ == #[trigger] ("*"@ + part + "*"@)
                && !holds_glob_mark(part) && !holds_nul(part) && !holds_nul(names.deep_view()[j])
                ==> #[trigger] flags@[j] == holds(names.deep_view()[j], part),
{
    let mut flags: Vec<bool> = Vec::new();
    let ghost all = names.deep_view();
    if names.len() == 0 {
        assert(flags@ =~= all.map_values(|name: Seq<char>| sqlite_glob(pattern@, name)));
        return Some(flags);
    }
    let scratch: Scratch = match Scratch::open() {
        Ok(scratch) => scratch,
        Err(_) => return None,
    };
    let mut i: usize = 0;
    while i < names.len()
        invariant
            i <= names.len(),
            all == names.deep_view(),
            flags.len() == i,
            forall|j: int| 0 <= j < i ==> #[trigger] flags@[j] == sqlite_glob(pattern@, all[j]),
            forall|j: int, part: Seq<char>|
                0 <= j < i && pattern@ == #[trigger] ("*"@ + part + "*"@)
                    && !holds_glob_mark(part) && !holds_nul(part) && !holds_nul(all[j])
                    ==> #[trigger] flags@[j] == holds(all[j], part),
        decreases names.len() - i,
    {
        match scratch.glob(pattern, names[i].as_str()) {
            Ok(flag) => flags.push(flag),
            Err(_) => return None,
        }
        i = i + 1;
    }
    assert(flags@ =~= all.map_values(|name: Seq<char>| sqlite_glob(pattern@, name)));
    Some(flags)
}

/// Which names a LIKE pattern matches, or nothing when SQLite would not say.
pub(crate) fn like_flags(pattern: &str, names: &Vec<String>) -> (r: Option<Vec<bool>>)
    ensures
        names.len() == 0 ==> r is Some,
        r matches Some(flags) ==> flags@ == names.deep_view().map_values(
            |name: Seq<char>| sqlite_like(pattern@, name),
        ),
        r matches Some(flags) ==> forall|j: int, part: Seq<char>|
            0 <= j < names.len() && pattern@ == #[trigger] ("%"@ + part + "%"@)
                && !holds_like_mark(part) && !holds_nul(part) && !holds_nul(names.deep_view()[j])
                ==> #[trigger] flags@[j] == holds(lowered(names.deep_view()[j]), lowered(part)),
{
    let mut flags: Vec<bool> = Vec::new();
    let ghost all = names.deep_view();
    if names.len() == 0 {
        assert(flags@ =~= all.map_values(|name: Seq<char>| sqlite_like(pattern@, name)));
        return Some(flags);
    }
    let scratch: Scratch = match Scratch::open() {
        Ok(scratch) => scratch,
        Err(_) => return None,
    };
    let mut i: usize = 0;
    while i < names.len()
        invariant
            i <= names.len(),
            all == names.deep_view(),
            flags.len() == i,
            forall|j: int| 0 <= j < i ==> #[trigger] flags@[j] == sqlite_like(pattern@, all[j]),
            forall|j: int, part: Seq<char>|
                0 <= j < i && pattern@ == #[trigger] ("%"@ + part + "%"@)
                    && !holds_like_mark(part) && !holds_nul(part) && !holds_nul(all[j])
                    ==> #[trigger] flags@[j] == holds(lowered(all[j]), lowered(part)),
        decreases names.len() - i,
    {
        match scratch.like(pattern, names[i].as_str()) {
            Ok(flag) => flags.push(flag),
            Err(_) => return None,
        }
        i = i + 1;
    }
    assert(flags@ =~= all.map_values(|name: Seq<char>| sqlite_like(pattern@, name)));
    Some(flags)
}

} // verus!
