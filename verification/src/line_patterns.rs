//! Line-level patterns of the block grammar: headings, horizontal rules,
//! task items, list items and indentation.
//!
//! The patterns are read on single lines, which never hold `'\n'`:
//!
//! * heading     `#{1,6}`, white space, text (`# Title`);
//! * rule        three or more `-` and nothing else;
//! * task item   optional white space, `- [ ]` or `- [x]`, white space, text;
//! * list item   a task item, `- ` or `* ` after leading white space, or
//!   digits followed by `. `.
//!
//! "White space, text" takes the longest run of white space that leaves some
//! text; when the white space runs to the end of the line, its last
//! character is the text (and a single white-space character is no match).
use vstd::prelude::*;
use crate::inline::ws_run;
use crate::text::{find, find_str, has_prefix, is_digit, trim_start, starts_with, trim_start_chars};
use crate::text::{is_ascii_digit, slice_of};

verus! {

/// Length of the run of `c` that starts at `i`.
pub open spec fn run_of(s: Seq<char>, i: int, c: char) -> nat
    decreases s.len() - i,
{
    if 0 <= i < s.len() && s[i] == c {
        1 + run_of(s, i + 1, c)
    } else {
        0
    }
}

/// White space starting at `p`, then the text up to the end of the line.
pub open spec fn spaced_text(s: Seq<char>, p: int) -> Option<Seq<char>> {
    let w = ws_run(s, p);
    if w == 0 {
        None
    } else if p + w < s.len() {
        Some(s.skip(p + w))
    } else if w >= 2 {
        Some(s.skip(s.len() - 1))
    } else {
        None
    }
}

/// A heading line: its level (the number of `#`) and its text.
pub open spec fn heading_of(s: Seq<char>) -> Option<(nat, Seq<char>)> {
    let h = run_of(s, 0, '#');
    if 1 <= h <= 6 {
        match spaced_text(s, h as int) {
            Some(t) => Some((h, t)),
            None => None,
        }
    } else {
        None
    }
}

/// A horizontal rule: three or more dashes and nothing else.
pub open spec fn is_rule_line(s: Seq<char>) -> bool {
    s.len() >= 3 && forall|k: int| 0 <= k < s.len() ==> s[k] == '-'
}

/// A task-list item: whether it is checked, and its text.
pub open spec fn task_of(s: Seq<char>) -> Option<(bool, Seq<char>)> {
    let w = ws_run(s, 0) as int;
    if w + 5 <= s.len() && s[w] == '-' && s[w + 1] == ' ' && s[w + 2] == '[' && (s[w + 3] == ' '
        || s[w + 3] == 'x') && s[w + 4] == ']' {
        match spaced_text(s, w + 5) {
            Some(t) => Some((s[w + 3] == 'x', t)),
            None => None,
        }
    } else {
        None
    }
}

/// An ordered-list marker: the first `. ` of `s`, when everything before
/// it is an ASCII digit.  Gives the position of that `. `.
pub open spec fn ordered_marker(s: Seq<char>) -> Option<int> {
    match find(s, ". "@) {
        Some(k) => if forall|j: int| 0 <= j < k ==> is_digit(#[trigger] s[j]) {
            Some(k)
        } else {
            None
        },
        None => None,
    }
}

/// A list item (any kind): `(is_list, is_task, text)`.
pub open spec fn list_item_of(s: Seq<char>) -> Option<(bool, bool, Seq<char>)> {
    let t = trim_start(s);
    match task_of(s) {
        Some((_, text)) => Some((true, true, text)),
        None => if has_prefix(t, "- "@) || has_prefix(t, "* "@) {
            Some((true, false, t.skip(2)))
        } else {
            match ordered_marker(t) {
                Some(k) => Some((true, false, t.skip(k + 2))),
                None => None,
            }
        },
    }
}

/// Indentation of a line: leading spaces count one, leading tabs four.
pub open spec fn indent_of(s: Seq<char>) -> nat
    decreases s.len(),
{
    if s.len() > 0 && s[0] == ' ' {
        1 + indent_of(s.drop_first())
    } else if s.len() > 0 && s[0] == '\t' {
        4 + indent_of(s.drop_first())
    } else {
        0
    }
}

// ---------------------------------------------------------------------
// Executable matching
// ---------------------------------------------------------------------

fn run_of_exec(s: &Vec<char>, i: usize, c: char) -> (r: usize)
    requires
        i <= s.len(),
    ensures
        r == run_of(s@, i as int, c),
        i + r <= s.len(),
{
    let mut j = i;
    while j < s.len() && s[j] == c
        invariant
            i <= j <= s.len(),
            run_of(s@, i as int, c) == (j - i) + run_of(s@, j as int, c),
        decreases s.len() - j,
    {
        j += 1;
    }
    j - i
}

fn ws_run_at(s: &Vec<char>, i: usize) -> (r: usize)
    requires
        i <= s.len(),
    ensures
        r == ws_run(s@, i as int),
        i + r <= s.len(),
{
    let mut j = i;
    while j < s.len() && crate::text::is_whitespace(s[j])
        invariant
            i <= j <= s.len(),
            ws_run(s@, i as int) == (j - i) + ws_run(s@, j as int),
        decreases s.len() - j,
    {
        j += 1;
    }
    j - i
}

fn match_spaced_text(s: &Vec<char>, p: usize) -> (r: Option<Vec<char>>)
    requires
        p <= s.len(),
    ensures
        match r {
            Some(t) => spaced_text(s@, p as int) == Some(t@),
            None => spaced_text(s@, p as int) is None,
        },
{
    let w = ws_run_at(s, p);
    if w == 0 {
        None
    } else if p + w < s.len() {
        Some(slice_of(s, p + w, s.len()))
    } else if w >= 2 {
        Some(slice_of(s, s.len() - 1, s.len()))
    } else {
        None
    }
}

/// Matches a heading line: level and text.
pub fn match_heading(s: &Vec<char>) -> (r: Option<(usize, Vec<char>)>)
    ensures
        match r {
            Some((h, t)) => heading_of(s@) == Some((h as nat, t@)),
            None => heading_of(s@) is None,
        },
{
    let h = run_of_exec(s, 0, '#');
    if 1 <= h && h <= 6 {
        match match_spaced_text(s, h) {
            Some(t) => Some((h, t)),
            None => None,
        }
    } else {
        None
    }
}

/// Whether the line is a horizontal rule.
pub fn match_rule_line(s: &Vec<char>) -> (r: bool)
    ensures
        r == is_rule_line(s@),
{
    if s.len() < 3 {
        return false;
    }
    let mut i: usize = 0;
    while i < s.len()
        invariant
            i <= s.len(),
            forall|k: int| 0 <= k < i ==> s@[k] == '-',
        decreases s.len() - i,
    {
        if s[i] != '-' {
            return false;
        }
        i += 1;
    }
    true
}

/// Matches a task-list item: checked flag and text.
pub fn match_task(s: &Vec<char>) -> (r: Option<(bool, Vec<char>)>)
    ensures
        match r {
            Some((c, t)) => task_of(s@) == Some((c, t@)),
            None => task_of(s@) is None,
        },
{
    let w = ws_run_at(s, 0);
    if s.len() - w < 5 {
        return None;
    }
    if s[w] == '-' && s[w + 1] == ' ' && s[w + 2] == '[' && (s[w + 3] == ' ' || s[w + 3] == 'x')
        && s[w + 4] == ']' {
        match match_spaced_text(s, w + 5) {
            Some(t) => Some((s[w + 3] == 'x', t)),
            None => None,
        }
    } else {
        None
    }
}

/// Matches an ordered-list marker: the position of its `. `.
pub fn match_ordered_marker(s: &Vec<char>) -> (r: Option<usize>)
    ensures
        match r {
            Some(k) => ordered_marker(s@) == Some(k as int) && k + 2 <= s.len(),
            None => ordered_marker(s@) is None,
        },
{
    proof {
        reveal_strlit(". ");
    }
    match find_str(s, ". ") {
        Some(k) => {
            let mut j: usize = 0;
            while j < k
                invariant
                    j <= k,
                    find(s@, ". "@) == Some(k as int),
                    k + 2 <= s.len(),
                    forall|m: int| 0 <= m < j ==> is_digit(#[trigger] s@[m]),
                decreases k - j,
            {
                if !is_ascii_digit(s[j]) {
                    return None;
                }
                j += 1;
            }
            Some(k)
        },
        None => None,
    }
}

/// Check if a line is a list item and return its type and content.
pub fn parse_list_item(line: &Vec<char>) -> (r: Option<(bool, bool, Vec<char>)>)
    ensures
        match r {
            Some((a, b, t)) => list_item_of(line@) == Some((a, b, t@)),
            None => list_item_of(line@) is None,
        },
{
    let trimmed = trim_start_chars(line);
    if let Some((_, text)) = match_task(line) {
        return Some((true, true, text));
    }
    proof {
        reveal_strlit("- ");
        reveal_strlit("* ");
    }
    if starts_with(&trimmed, "- ") || starts_with(&trimmed, "* ") {
        let text = slice_of(&trimmed, 2, trimmed.len());
        return Some((true, false, text));
    }
    if let Some(num_end) = match_ordered_marker(&trimmed) {
        let text = slice_of(&trimmed, num_end + 2, trimmed.len());
        return Some((true, false, text));
    }
    None
}

/// Calculate indentation level (leading spaces count one, tabs four).
///
/// Counted in `u128`: four times any line length fits.
pub fn get_indent_level(line: &Vec<char>) -> (r: u128)
    ensures
        r == indent_of(line@),
{
    let mut i: usize = 0;
    let mut level: u128 = 0;
    assert(line@.skip(0) =~= line@);
    while i < line.len() && (line[i] == ' ' || line[i] == '\t')
        invariant
            i <= line.len(),
            level <= 4 * i,
            indent_of(line@) == level + indent_of(line@.skip(i as int)),
        decreases line.len() - i,
    {
        assert(line@.skip(i as int).drop_first() =~= line@.skip(i + 1));
        if line[i] == '\t' {
            level = level + 4;
        } else {
            level = level + 1;
        }
        i += 1;
    }
    level
}

} // verus!
