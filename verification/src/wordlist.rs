//! A word list as text: one word to a line, taken in lower case.

use crate::text::{collect_chars, string_views};
use vstd::prelude::*;

verus! {

/// The lower-case form of a string, as `str::to_lowercase` gives it.
pub uninterp spec fn lowercase_of(s: Seq<char>) -> Seq<char>;

/// Calls `str::to_lowercase`, which maps a string to its lower-case form by
/// the rules of Unicode, whatever the locale.
#[verifier::external_body]
fn to_lowercase(s: &str) -> (lower: String)
    ensures
        lower@ == lowercase_of(s@),
{
    s.to_lowercase()
}

/// A line without the carriage return that may end it.
pub open spec fn strip_cr(line: Seq<char>) -> Seq<char> {
    if line.len() > 0 && line.last() == '\r' {
        line.drop_last()
    } else {
        line
    }
}

/// The lines of `s` from position `from` on, where the line being read
/// starts at `start`: a line ends at a line feed, which is dropped together
/// with a carriage return before it; what follows the last line feed is a
/// line as it stands, unless it is empty.
pub open spec fn lines_from(s: Seq<char>, from: int, start: int) -> Seq<Seq<char>>
    decreases s.len() - from,
{
    if from >= s.len() {
        if start < s.len() {
            seq![s.subrange(start, s.len() as int)]
        } else {
            Seq::empty()
        }
    } else if s[from] == '\n' {
        seq![strip_cr(s.subrange(start, from))] + lines_from(s, from + 1, from + 1)
    } else {
        lines_from(s, from + 1, start)
    }
}

/// The lines of `s`.
pub open spec fn lines_of(s: Seq<char>) -> Seq<Seq<char>> {
    lines_from(s, 0, 0)
}

/// The words of a word list: its lines, each in lower case.
pub open spec fn listed_words(content: Seq<char>) -> Seq<Seq<char>> {
    Seq::new(lines_of(content).len(), |i: int| lowercase_of(lines_of(content)[i]))
}

/// The string made of the characters of `chars` from `start` up to `end`.
fn string_between(chars: &Vec<char>, start: usize, end: usize) -> (s: String)
    requires
        start <= end <= chars.len(),
    ensures
        s@ == chars@.subrange(start as int, end as int),
{
    let mut s = String::new();
    let mut i: usize = start;
    while i < end
        invariant
            start <= i <= end,
            end <= chars.len(),
            s@ == chars@.subrange(start as int, i as int),
        decreases end - i,
    {
        s.push(chars[i]);
        assert(chars@.subrange(start as int, i as int).push(chars@[i as int]) =~= chars@.subrange(
            start as int,
            i + 1,
        ));
        i += 1;
    }
    s
}

/// The lines of `content`, as `str::lines` gives them.
pub fn split_lines(content: &str) -> (lines: Vec<String>)
    ensures
        string_views(lines@) == lines_of(content@),
{
    let chars = collect_chars(content);
    let ghost s = content@;
    let mut lines: Vec<String> = Vec::new();
    let mut start: usize = 0;
    let mut i: usize = 0;
    assert(string_views(lines@) + lines_from(s, 0, 0) =~= lines_of(s));
    while i < chars.len()
        invariant
            start <= i <= chars.len(),
            chars@ == s,
            lines_of(s) == string_views(lines@) + lines_from(s, i as int, start as int),
        decreases chars.len() - i,
    {
        if chars[i] == '\n' {
            let end: usize = if i > start && chars[i - 1] == '\r' {
                i - 1
            } else {
                i
            };
            let line = string_between(&chars, start, end);
            proof {
                let raw = s.subrange(start as int, i as int);
                if i > start {
                    assert(raw.last() == s[i - 1]);
                    assert(raw.drop_last() =~= s.subrange(start as int, i - 1));
                }
                assert(line@ == strip_cr(raw));
                assert(string_views(lines@.push(line)) =~= string_views(lines@) + seq![line@]);
            }
            lines.push(line);
            start = i + 1;
        }
        i += 1;
    }
    if start < chars.len() {
        let line = string_between(&chars, start, chars.len());
        proof {
            assert(string_views(lines@.push(line)) =~= string_views(lines@) + seq![line@]);
        }
        lines.push(line);
    } else {
        assert(string_views(lines@) + Seq::<Seq<char>>::empty() =~= string_views(lines@));
    }
    lines
}

/// The words of the word list `content`: its lines, each in lower case.
pub fn words_of_list(content: &str) -> (words: Vec<String>)
    ensures
        string_views(words@) == listed_words(content@),
{
    let lines = split_lines(content);
    let mut words: Vec<String> = Vec::new();
    let mut i: usize = 0;
    while i < lines.len()
        invariant
            i <= lines.len(),
            string_views(lines@) == lines_of(content@),
            words@.len() == i,
            forall|t: int| 0 <= t < i ==> #[trigger] words@[t]@ == lowercase_of(lines@[t]@),
        decreases lines.len() - i,
    {
        words.push(to_lowercase(lines[i].as_str()));
        i += 1;
    }
    proof {
        assert forall|t: int| 0 <= t < words@.len() implies string_views(words@)[t]
            == listed_words(content@)[t] by {
            assert(string_views(lines@)[t] == lines@[t]@);
        }
        assert(string_views(lines@).len() == lines@.len());
        assert(string_views(words@) =~= listed_words(content@));
    }
    words
}

} // verus!
