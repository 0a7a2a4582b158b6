//! Character-level text model shared by the chunker and the parser.
//!
//! Text is handled as sequences of Unicode scalar values: `Seq<char>` in
//! specifications, `Vec<char>` in executable code.  The functions here give
//! the meaning of the few `str` operations the renderer relies on (white
//! space, trimming, line splitting, joining, prefix and substring search).
use vstd::prelude::*;

verus! {

// ---------------------------------------------------------------------
// Specifications
// ---------------------------------------------------------------------

/// Unicode `White_Space`, the property behind `char::is_whitespace`
/// (and behind `\s` in Unicode regular expressions).
pub open spec fn is_ws(c: char) -> bool {
    ||| ('\u{9}' <= c && c <= '\u{d}')
    ||| c == ' '
    ||| c == '\u{85}'
    ||| c == '\u{a0}'
    ||| c == '\u{1680}'
    ||| ('\u{2000}' <= c && c <= '\u{200a}')
    ||| c == '\u{2028}'
    ||| c == '\u{2029}'
    ||| c == '\u{202f}'
    ||| c == '\u{205f}'
    ||| c == '\u{3000}'
}

/// ASCII decimal digit.
pub open spec fn is_digit(c: char) -> bool {
    '0' <= c && c <= '9'
}

/// `s` with its leading white space removed (`str::trim_start`).
pub open spec fn trim_start(s: Seq<char>) -> Seq<char>
    decreases s.len(),
{
    if s.len() > 0 && is_ws(s[0]) {
        trim_start(s.drop_first())
    } else {
        s
    }
}

/// `s` with its trailing white space removed (`str::trim_end`).
pub open spec fn trim_end(s: Seq<char>) -> Seq<char>
    decreases s.len(),
{
    if s.len() > 0 && is_ws(s.last()) {
        trim_end(s.drop_last())
    } else {
        s
    }
}

/// `s` with white space removed at both ends (`str::trim`).
pub open spec fn trim(s: Seq<char>) -> Seq<char> {
    trim_end(trim_start(s))
}

/// Number of white-space characters at the start of `s`.
pub open spec fn ws_prefix_len(s: Seq<char>) -> nat
    decreases s.len(),
{
    if s.len() > 0 && is_ws(s[0]) {
        1 + ws_prefix_len(s.drop_first())
    } else {
        0
    }
}

/// `p` is a prefix of `s`.
pub open spec fn has_prefix(s: Seq<char>, p: Seq<char>) -> bool {
    p.len() <= s.len() && s.take(p.len() as int) == p
}

/// Position of the first occurrence of `p` in `s` at or after `k`.
pub open spec fn find_from(s: Seq<char>, p: Seq<char>, k: int) -> Option<int>
    decreases s.len() + 1 - k,
{
    if k < 0 || k + p.len() > s.len() {
        None
    } else if s.subrange(k, k + p.len()) == p {
        Some(k)
    } else {
        find_from(s, p, k + 1)
    }
}

/// Position of the first occurrence of `p` in `s` (`str::find`).
pub open spec fn find(s: Seq<char>, p: Seq<char>) -> Option<int> {
    find_from(s, p, 0)
}

/// `p` occurs in `s` (`str::contains`).
pub open spec fn contains(s: Seq<char>, p: Seq<char>) -> bool {
    find(s, p) is Some
}

/// Position of the first `c` in `s`, or `s.len()` when there is none.
pub open spec fn index_of(s: Seq<char>, c: char) -> nat
    decreases s.len(),
{
    if s.len() == 0 {
        0
    } else if s[0] == c {
        0
    } else {
        1 + index_of(s.drop_first(), c)
    }
}

/// A line without its line terminator: a `'\r'` that preceded the `'\n'`
/// is dropped as well.
pub open spec fn strip_cr(s: Seq<char>) -> Seq<char> {
    if s.len() > 0 && s.last() == '\r' {
        s.drop_last()
    } else {
        s
    }
}

/// The lines of `s` (`str::lines`): split at `'\n'`, a `"\r\n"` ending
/// counts as one terminator, and a final terminator does not start a line.
pub open spec fn lines_of(s: Seq<char>) -> Seq<Seq<char>>
    decreases s.len(),
{
    if s.len() == 0 {
        seq![]
    } else {
        let k = index_of(s, '\n');
        if k < s.len() {
            seq![strip_cr(s.take(k as int))] + lines_of(s.skip(k as int + 1))
        } else {
            seq![s]
        }
    }
}

/// The pieces of `s` between occurrences of `c` (`str::split` with a
/// character pattern); `k` occurrences give `k + 1` pieces.
pub open spec fn split_on(s: Seq<char>, c: char) -> Seq<Seq<char>>
    decreases s.len(),
{
    let k = index_of(s, c);
    if k < s.len() {
        seq![s.take(k as int)] + split_on(s.skip(k as int + 1), c)
    } else {
        seq![s]
    }
}

/// The parts joined with `sep` between them (`[&str]::join`).
pub open spec fn join(parts: Seq<Seq<char>>, sep: Seq<char>) -> Seq<char>
    decreases parts.len(),
{
    if parts.len() == 0 {
        seq![]
    } else if parts.len() == 1 {
        parts[0]
    } else {
        join(parts.drop_last(), sep) + sep + parts.last()
    }
}

/// The contents of a vector of lines.
pub open spec fn lines_view(v: Seq<Vec<char>>) -> Seq<Seq<char>> {
    Seq::new(v.len(), |k: int| v[k]@)
}

// ---------------------------------------------------------------------
// Lemmas
// ---------------------------------------------------------------------

pub proof fn lemma_trim_start_skip(s: Seq<char>, i: int)
    requires
        0 <= i < s.len(),
        is_ws(s[i]),
    ensures
        trim_start(s.skip(i)) == trim_start(s.skip(i + 1)),
{
    assert(s.skip(i).drop_first() =~= s.skip(i + 1));
}

pub proof fn lemma_trim_end_take(s: Seq<char>, j: int)
    requires
        0 < j <= s.len(),
        is_ws(s[j - 1]),
    ensures
        trim_end(s.take(j)) == trim_end(s.take(j - 1)),
{
    assert(s.take(j).drop_last() =~= s.take(j - 1));
}

pub proof fn lemma_ws_prefix_len_skip(s: Seq<char>, i: int)
    requires
        0 <= i < s.len(),
        is_ws(s[i]),
    ensures
        ws_prefix_len(s.skip(i)) == 1 + ws_prefix_len(s.skip(i + 1)),
{
    assert(s.skip(i).drop_first() =~= s.skip(i + 1));
}

/// `index_of` is the first occurrence.
pub proof fn lemma_index_of(s: Seq<char>, c: char)
    ensures
        index_of(s, c) <= s.len(),
        index_of(s, c) < s.len() ==> s[index_of(s, c) as int] == c,
        forall|j: int| 0 <= j < index_of(s, c) ==> s[j] != c,
    decreases s.len(),
{
    if s.len() > 0 && s[0] != c {
        lemma_index_of(s.drop_first(), c);
        assert forall|j: int| 0 <= j < index_of(s, c) implies s[j] != c by {
            if j > 0 {
                assert(s[j] == s.drop_first()[j - 1]);
            }
        }
    }
}

/// Characterisation of `index_of` by its position.
pub proof fn lemma_index_of_at(s: Seq<char>, c: char, k: int)
    requires
        0 <= k <= s.len(),
        k < s.len() ==> s[k] == c,
        forall|j: int| 0 <= j < k ==> s[j] != c,
    ensures
        index_of(s, c) == k,
{
    lemma_index_of(s, c);
    if index_of(s, c) < k {
        assert(s[index_of(s, c) as int] == c);
    }
}

/// A text starts with any text it is extended from.
pub proof fn lemma_prefix_concat(a: Seq<char>, b: Seq<char>)
    ensures
        has_prefix(a + b, a),
{
    assert((a + b).take(a.len() as int) =~= a);
}

/// Being a prefix is transitive.
pub proof fn lemma_prefix_trans(r: Seq<char>, a: Seq<char>, b: Seq<char>)
    requires
        has_prefix(r, a),
        has_prefix(a, b),
    ensures
        has_prefix(r, b),
{
    assert(r.take(b.len() as int) =~= a.take(b.len() as int));
}

/// Trimming the end keeps the first character when it is not white space.
pub proof fn lemma_trim_end_first(s: Seq<char>)
    requires
        trim_end(s).len() > 0,
    ensures
        s.len() > 0,
        s[0] == trim_end(s)[0],
    decreases s.len(),
{
    if s.len() > 0 && is_ws(s.last()) {
        lemma_trim_end_first(s.drop_last());
        assert(s.drop_last()[0] == s[0]);
    }
}

/// A text whose first character is not white space keeps it when its end
/// is trimmed.
pub proof fn lemma_trim_end_nonempty(s: Seq<char>)
    requires
        s.len() > 0,
        !is_ws(s[0]),
    ensures
        trim_end(s).len() > 0,
    decreases s.len(),
{
    if s.len() > 1 && is_ws(s.last()) {
        lemma_trim_end_nonempty(s.drop_last());
    }
}

/// A found occurrence lies inside the text.
pub proof fn lemma_find_bounds(s: Seq<char>, p: Seq<char>, k: int)
    requires
        0 <= k,
        find_from(s, p, k) is Some,
    ensures
        k <= find_from(s, p, k)->0,
        find_from(s, p, k)->0 + p.len() <= s.len(),
    decreases s.len() + 1 - k,
{
    if k + p.len() <= s.len() && s.subrange(k, k + p.len()) != p {
        lemma_find_bounds(s, p, k + 1);
    }
}

/// `join` of two non-empty runs of parts.
pub proof fn lemma_join_append(a: Seq<Seq<char>>, b: Seq<Seq<char>>, sep: Seq<char>)
    requires
        a.len() > 0,
        b.len() > 0,
    ensures
        join(a + b, sep) == join(a, sep) + sep + join(b, sep),
    decreases b.len(),
{
    if b.len() == 1 {
        assert((a + b).drop_last() =~= a);
    } else {
        lemma_join_append(a, b.drop_last(), sep);
        assert((a + b).drop_last() =~= a + b.drop_last());
    }
}

/// Appending one more part to a join.
pub proof fn lemma_join_push(a: Seq<Seq<char>>, x: Seq<char>, sep: Seq<char>)
    ensures
        join(a.push(x), sep) == if a.len() == 0 { x } else { join(a, sep) + sep + x },
{
    assert(a.push(x).drop_last() =~= a);
}

/// A text without carriage returns and without a final line break is
/// its lines joined by `'\n'`.
pub proof fn lemma_lines_rejoin(s: Seq<char>)
    requires
        forall|j: int| 0 <= j < s.len() ==> s[j] != '\r',
        s.len() > 0 ==> s.last() != '\n',
    ensures
        join(lines_of(s), seq!['\n']) == s,
    decreases s.len(),
{
    if s.len() > 0 {
        let k = index_of(s, '\n');
        lemma_index_of(s, '\n');
        if k < s.len() {
            let head = s.take(k as int);
            let rest = s.skip(k as int + 1);
            assert(rest.len() > 0);
            assert(rest.last() == s.last());
            assert forall|j: int| 0 <= j < rest.len() implies rest[j] != '\r' by {
                assert(rest[j] == s[k + 1 + j]);
            }
            lemma_lines_rejoin(rest);
            assert(strip_cr(head) == head);
            assert(lines_of(rest).len() > 0);
            lemma_join_append(seq![head], lines_of(rest), seq!['\n']);
            assert(seq![head] + lines_of(rest) == lines_of(s));
            assert(head + seq!['\n'] + rest =~= s);
        }
    }
}

// ---------------------------------------------------------------------
// Executable helpers
// ---------------------------------------------------------------------

/// The characters of a string slice.
pub fn str_to_chars(s: &str) -> (r: Vec<char>)
    ensures
        r@ == s@,
{
    let mut r: Vec<char> = Vec::new();
    for c in it: s.chars()
        invariant
            it.seq() == s@,
            r@ == it.seq().take(it.index() as int),
    {
        r.push(c);
    }
    r
}

/// Calls `String::push`.  Trusted: the string afterwards holds its old
/// characters followed by `c` (as `String::push` documents).
#[verifier::external_body]
fn string_push(s: &mut String, c: char)
    ensures
        final(s)@ == old(s)@.push(c),
{
    s.push(c);
}

/// The string made of the characters of `v`.
pub fn chars_to_string(v: &Vec<char>) -> (r: String)
    ensures
        r@ == v@,
{
    let mut r = String::new();
    let mut i: usize = 0;
    while i < v.len()
        invariant
            i <= v.len(),
            r@ == v@.take(i as int),
        decreases v.len() - i,
    {
        string_push(&mut r, v[i]);
        i += 1;
        assert(r@ =~= v@.take(i as int));
    }
    assert(v@.take(v.len() as int) =~= v@);
    r
}

/// Appends the characters of a string slice.
pub fn push_str(out: &mut Vec<char>, s: &str)
    ensures
        final(out)@ == old(out)@ + s@,
{
    let chars = str_to_chars(s);
    push_all(out, &chars);
}

/// Appends the characters of `s`.
pub fn push_all(out: &mut Vec<char>, s: &Vec<char>)
    ensures
        final(out)@ == old(out)@ + s@,
{
    let ghost start = out@;
    let mut i: usize = 0;
    while i < s.len()
        invariant
            i <= s.len(),
            out@ == start + s@.take(i as int),
        decreases s.len() - i,
    {
        out.push(s[i]);
        i += 1;
        assert(out@ =~= start + s@.take(i as int));
    }
    assert(s@.take(s.len() as int) =~= s@);
}

/// A copy of `s[a..b]`.
pub fn slice_of(s: &Vec<char>, a: usize, b: usize) -> (r: Vec<char>)
    requires
        a <= b <= s.len(),
    ensures
        r@ == s@.subrange(a as int, b as int),
{
    let mut r: Vec<char> = Vec::new();
    let mut i = a;
    while i < b
        invariant
            a <= i <= b <= s.len(),
            r@ == s@.subrange(a as int, i as int),
        decreases b - i,
    {
        r.push(s[i]);
        i += 1;
        assert(r@ =~= s@.subrange(a as int, i as int));
    }
    r
}

/// `char::is_whitespace`.
pub fn is_whitespace(c: char) -> (r: bool)
    ensures
        r == is_ws(c),
{
    ('\u{9}' <= c && c <= '\u{d}') || c == ' ' || c == '\u{85}' || c == '\u{a0}'
        || c == '\u{1680}' || ('\u{2000}' <= c && c <= '\u{200a}') || c == '\u{2028}'
        || c == '\u{2029}' || c == '\u{202f}' || c == '\u{205f}' || c == '\u{3000}'
}

/// `char::is_ascii_digit`.
pub fn is_ascii_digit(c: char) -> (r: bool)
    ensures
        r == is_digit(c),
{
    '0' <= c && c <= '9'
}

/// Number of white-space characters at the start of `s`.
pub fn leading_ws(s: &Vec<char>) -> (r: usize)
    ensures
        r == ws_prefix_len(s@),
        r <= s.len(),
        s@.skip(r as int) == trim_start(s@),
{
    let mut i: usize = 0;
    assert(s@.skip(0) =~= s@);
    while i < s.len() && is_whitespace(s[i])
        invariant
            i <= s.len(),
            ws_prefix_len(s@) == i + ws_prefix_len(s@.skip(i as int)),
            trim_start(s@) == trim_start(s@.skip(i as int)),
        decreases s.len() - i,
    {
        proof {
            lemma_ws_prefix_len_skip(s@, i as int);
            lemma_trim_start_skip(s@, i as int);
        }
        i += 1;
    }
    proof {
        lemma_no_ws(s@, i as int);
    }
    i
}

proof fn lemma_no_ws(s: Seq<char>, i: int)
    requires
        0 <= i <= s.len(),
        i < s.len() ==> !is_ws(s[i]),
    ensures
        ws_prefix_len(s.skip(i)) == 0,
        trim_start(s.skip(i)) == s.skip(i),
{
}

/// `str::trim_start`.
pub fn trim_start_chars(s: &Vec<char>) -> (r: Vec<char>)
    ensures
        r@ == trim_start(s@),
{
    let a = leading_ws(s);
    slice_of(s, a, s.len())
}

/// `str::trim`.
pub fn trim_chars(s: &Vec<char>) -> (r: Vec<char>)
    ensures
        r@ == trim(s@),
{
    let t = trim_start_chars(s);
    let mut j = t.len();
    proof {
        assert(t@.take(j as int) =~= t@);
    }
    while j > 0 && is_whitespace(t[j - 1])
        invariant
            j <= t.len(),
            trim_end(t@) == trim_end(t@.take(j as int)),
        decreases j,
    {
        proof {
            lemma_trim_end_take(t@, j as int);
        }
        j -= 1;
    }
    slice_of(&t, 0, j)
}

/// Whether `s` starts with `p`.
pub fn starts_with(s: &Vec<char>, p: &str) -> (r: bool)
    ensures
        r == has_prefix(s@, p@),
{
    let pc = str_to_chars(p);
    if pc.len() > s.len() {
        return false;
    }
    let mut i: usize = 0;
    while i < pc.len()
        invariant
            pc@ == p@,
            pc.len() <= s.len(),
            i <= pc.len(),
            forall|j: int| 0 <= j < i ==> s@[j] == pc@[j],
        decreases pc.len() - i,
    {
        if s[i] != pc[i] {
            proof {
                if has_prefix(s@, p@) {
                    assert(s@.take(pc.len() as int)[i as int] == s@[i as int]);
                }
            }
            return false;
        }
        i += 1;
    }
    assert(s@.take(pc.len() as int) =~= pc@);
    true
}

/// Whether `s` and `p` hold the same characters.
pub fn equals_str(s: &Vec<char>, p: &str) -> (r: bool)
    ensures
        r == (s@ == p@),
{
    let pc = str_to_chars(p);
    if pc.len() != s.len() {
        return false;
    }
    let mut i: usize = 0;
    while i < pc.len()
        invariant
            pc@ == p@,
            pc.len() == s.len(),
            i <= pc.len(),
            forall|j: int| 0 <= j < i ==> s@[j] == pc@[j],
        decreases pc.len() - i,
    {
        if s[i] != pc[i] {
            return false;
        }
        i += 1;
    }
    assert(s@ =~= pc@);
    true
}

/// Whether `s` ends with `p`.
pub fn ends_with(s: &Vec<char>, p: &str) -> (r: bool)
    ensures
        r == (p@.len() <= s@.len() && s@.skip(s@.len() - p@.len()) == p@),
{
    let pc = str_to_chars(p);
    if pc.len() > s.len() {
        return false;
    }
    let off = s.len() - pc.len();
    let mut i: usize = 0;
    while i < pc.len()
        invariant
            pc@ == p@,
            off + pc.len() == s.len(),
            i <= pc.len(),
            forall|j: int| 0 <= j < i ==> s@[off + j] == pc@[j],
        decreases pc.len() - i,
    {
        if s[off + i] != pc[i] {
            proof {
                assert(s@.skip(off as int)[i as int] == s@[off + i]);
            }
            return false;
        }
        i += 1;
    }
    assert(s@.skip(off as int) =~= pc@);
    true
}

/// Position of the first occurrence of `p` in `s` (`str::find`).
pub fn find_str(s: &Vec<char>, p: &str) -> (r: Option<usize>)
    ensures
        match r {
            Some(k) => find(s@, p@) == Some(k as int) && k + p@.len() <= s@.len(),
            None => find(s@, p@) is None,
        },
{
    let pc = str_to_chars(p);
    if pc.len() > s.len() {
        return None;
    }
    let last = s.len() - pc.len();
    let mut k: usize = 0;
    while k <= last
        invariant
            pc@ == p@,
            last + pc.len() == s.len(),
            find(s@, p@) == find_from(s@, p@, k as int),
        decreases last + 1 - k,
    {
        let mut i: usize = 0;
        let mut same = true;
        while i < pc.len()
            invariant
                pc@ == p@,
                k + pc.len() <= s.len(),
                i <= pc.len(),
                same == (forall|j: int| 0 <= j < i ==> s@[k + j] == pc@[j]),
            decreases pc.len() - i,
        {
            if s[k + i] != pc[i] {
                same = false;
            }
            i += 1;
        }
        if same {
            assert(s@.subrange(k as int, k + pc.len()) =~= pc@);
            return Some(k);
        }
        proof {
            if s@.subrange(k as int, k + pc.len()) == pc@ {
                assert forall|j: int| 0 <= j < pc.len() implies s@[k + j] == pc@[j] by {
                    assert(s@.subrange(k as int, k + pc.len())[j] == s@[k + j]);
                }
            }
        }
        k += 1;
    }
    None
}

/// Whether `p` occurs in `s`.
pub fn contains_str(s: &Vec<char>, p: &str) -> (r: bool)
    ensures
        r == contains(s@, p@),
{
    find_str(s, p).is_some()
}

/// Whether the character `c` occurs in `s`.
pub fn contains_char(s: &Vec<char>, c: char) -> (r: bool)
    ensures
        r == (index_of(s@, c) < s@.len()),
{
    let mut i: usize = 0;
    while i < s.len()
        invariant
            i <= s.len(),
            forall|j: int| 0 <= j < i ==> s@[j] != c,
        decreases s.len() - i,
    {
        if s[i] == c {
            proof {
                lemma_index_of(s@, c);
            }
            return true;
        }
        i += 1;
    }
    proof {
        lemma_index_of_at(s@, c, s@.len() as int);
    }
    false
}

/// `str::lines`, each line as a vector of characters.
pub fn split_lines(s: &Vec<char>) -> (r: Vec<Vec<char>>)
    ensures
        lines_view(r@) == lines_of(s@),
{
    let mut out: Vec<Vec<char>> = Vec::new();
    let mut cur: Vec<char> = Vec::new();
    let mut seg: usize = 0;
    let mut i: usize = 0;
    assert(s@.skip(0) =~= s@);
    assert(lines_view(out@) + lines_of(s@) =~= lines_of(s@));
    while i < s.len()
        invariant
            seg <= i <= s.len(),
            cur@ == s@.subrange(seg as int, i as int),
            forall|j: int| seg <= j < i ==> s@[j] != '\n',
            lines_of(s@) == lines_view(out@) + lines_of(s@.skip(seg as int)),
        decreases s.len() - i,
    {
        if s[i] == '\n' {
            let ghost rest = s@.skip(seg as int);
            proof {
                lemma_index_of_at(rest, '\n', i - seg);
                assert(rest.take(i - seg) =~= cur@);
                assert(rest.skip(i - seg + 1) =~= s@.skip(i + 1));
            }
            let mut line = cur;
            if line.len() > 0 && line[line.len() - 1] == '\r' {
                line.pop();
            }
            proof {
                assert(line@ =~= strip_cr(cur@));
            }
            let ghost before = out@;
            out.push(line);
            proof {
                assert(lines_view(out@) =~= lines_view(before) + seq![strip_cr(rest.take(i - seg))]);
            }
            cur = Vec::new();
            seg = i + 1;
        } else {
            cur.push(s[i]);
        }
        i += 1;
        assert(cur@ =~= s@.subrange(seg as int, i as int));
    }
    let ghost rest = s@.skip(seg as int);
    if cur.len() > 0 {
        proof {
            lemma_index_of_at(rest, '\n', rest.len() as int);
            assert(rest =~= cur@);
        }
        let ghost before = out@;
        out.push(cur);
        proof {
            assert(lines_view(out@) =~= lines_view(before) + seq![rest]);
        }
    } else {
        assert(rest.len() == 0);
        assert(lines_view(out@) + lines_of(rest) =~= lines_view(out@));
    }
    out
}

/// `[&str]::join` over vectors of characters.
pub fn join_lines(parts: &Vec<Vec<char>>, a: usize, b: usize, sep: &str) -> (r: Vec<char>)
    requires
        a <= b <= parts.len(),
    ensures
        r@ == join(lines_view(parts@).subrange(a as int, b as int), sep@),
{
    let mut r: Vec<char> = Vec::new();
    let mut i = a;
    let ghost lv = lines_view(parts@);
    while i < b
        invariant
            a <= i <= b <= parts.len(),
            lv == lines_view(parts@),
            r@ == join(lv.subrange(a as int, i as int), sep@),
        decreases b - i,
    {
        if i > a {
            push_str(&mut r, sep);
        }
        push_all(&mut r, &parts[i]);
        proof {
            lemma_join_push(lv.subrange(a as int, i as int), lv[i as int], sep@);
            assert(lv.subrange(a as int, i as int).push(lv[i as int]) =~= lv.subrange(a as int, i + 1));
        }
        i += 1;
    }
    r
}

} // verus!
