//! Inline markdown: code spans, strikethrough, bold, italic, images and
//! links, and HTML escaping.
//!
//! Each inline construct is a small pattern; `replace_all` rewrites every
//! occurrence, scanning left to right and resuming after each occurrence,
//! with the leftmost occurrence taken first.  The patterns are:
//!
//! * code span      `` `x` ``  : a backtick, one or more non-backticks, a backtick;
//! * strikethrough  `~~x~~`    : two tildes, one or more non-tildes, two tildes;
//! * bold           `**x**`    : two stars, one or more non-stars, two stars;
//! * italic         `_x_`      : an underscore, one or more non-underscores, an underscore;
//! * image          `![alt](url "title")` : the alt text holds no `]`, the url
//!   no `)` and is the shortest one after which either a title (white
//!   space, a quote, a quote-free title, a quote) and `)` follow, or `)`;
//! * link           `[text](url)` : text without `]`, url without `)`, both non-empty.
use vstd::prelude::*;
use crate::text::{has_prefix, is_ws, push_all, push_str, slice_of, is_whitespace};

verus! {

/// The inline constructs, each with its own way of being written out.
#[derive(Clone, Copy, PartialEq, Eq, Structural, Debug)]
pub enum Rule {
    /// `` `x` `` to `<code>x</code>`, `x` escaped.
    Code,
    /// `~~x~~` to `<del>x</del>`, `x` rendered with bold and italic.
    Strikethrough,
    /// `**x**` to `<strong>x</strong>`, `x` rendered with bold and italic.
    Bold,
    /// `_x_` to `<em>x</em>`, `x` escaped.
    Italic,
    /// `![alt](url "title")` to `<img ... />`.
    Image,
    /// `[text](url)` to `<a href="url">text</a>`, `text` rendered with bold and italic.
    Link,
    /// `**x**` to `<strong>x</strong>`, `x` escaped.
    PlainBold,
}

/// An occurrence of a pattern: where it ends and what its groups hold.
pub type Found = (int, Seq<char>, Seq<char>, Option<Seq<char>>);

// ---------------------------------------------------------------------
// Escaping
// ---------------------------------------------------------------------

/// The HTML form of one character.
pub open spec fn escaped_char(c: char) -> Seq<char> {
    if c == '<' {
        "&lt;"@
    } else if c == '>' {
        "&gt;"@
    } else if c == '&' {
        "&amp;"@
    } else if c == '"' {
        "&quot;"@
    } else if c == '\'' {
        "&#39;"@
    } else {
        seq![c]
    }
}

/// `s` with the HTML special characters `< > & " '` escaped.
pub open spec fn escaped(s: Seq<char>) -> Seq<char>
    decreases s.len(),
{
    if s.len() == 0 {
        seq![]
    } else {
        escaped(s.drop_last()) + escaped_char(s.last())
    }
}

/// Escaping distributes over concatenation.
pub proof fn lemma_escaped_append(a: Seq<char>, b: Seq<char>)
    ensures
        escaped(a + b) == escaped(a) + escaped(b),
    decreases b.len(),
{
    if b.len() == 0 {
        assert(a + b =~= a);
    } else {
        lemma_escaped_append(a, b.drop_last());
        assert((a + b).drop_last() =~= a + b.drop_last());
    }
}

/// Escaped text holds none of `<`, `>`, `"` and `'`: it cannot open or
/// close a tag or end an attribute value.
pub proof fn lemma_escaped_safe(s: Seq<char>)
    ensures
        forall|k: int|
            0 <= k < escaped(s).len() ==> #[trigger] escaped(s)[k] != '<' && escaped(s)[k] != '>'
                && escaped(s)[k] != '"' && escaped(s)[k] != '\'',
    decreases s.len(),
{
    if s.len() > 0 {
        lemma_escaped_safe(s.drop_last());
        reveal_strlit("&lt;");
        reveal_strlit("&gt;");
        reveal_strlit("&amp;");
        reveal_strlit("&quot;");
        reveal_strlit("&#39;");
        let a = escaped(s.drop_last());
        let b = escaped_char(s.last());
        assert forall|k: int| 0 <= k < escaped(s).len() implies #[trigger] escaped(s)[k] != '<'
            && escaped(s)[k] != '>' && escaped(s)[k] != '"' && escaped(s)[k] != '\'' by {
            if k >= a.len() {
                assert(escaped(s)[k] == b[k - a.len()]);
            } else {
                assert(escaped(s)[k] == a[k]);
            }
        }
    }
}

/// The text an escaped text stands for: the five entities `&lt;` `&gt;`
/// `&amp;` `&quot;` `&#39;` read back as their characters, left to right.
pub open spec fn unescaped(t: Seq<char>) -> Seq<char>
    decreases t.len(),
{
    if t.len() == 0 {
        seq![]
    } else if has_prefix(t, seq!['&', 'l', 't', ';']) {
        seq!['<'] + unescaped(t.skip(4))
    } else if has_prefix(t, seq!['&', 'g', 't', ';']) {
        seq!['>'] + unescaped(t.skip(4))
    } else if has_prefix(t, seq!['&', 'a', 'm', 'p', ';']) {
        seq!['&'] + unescaped(t.skip(5))
    } else if has_prefix(t, seq!['&', 'q', 'u', 'o', 't', ';']) {
        seq!['"'] + unescaped(t.skip(6))
    } else if has_prefix(t, seq!['&', '#', '3', '9', ';']) {
        seq!['\''] + unescaped(t.skip(5))
    } else {
        seq![t[0]] + unescaped(t.skip(1))
    }
}

proof fn lemma_prefix_char(t: Seq<char>, p: Seq<char>, k: int)
    requires
        has_prefix(t, p),
        0 <= k < p.len(),
    ensures
        t[k] == p[k],
{
    assert(t.take(p.len() as int)[k] == t[k]);
}

proof fn lemma_unescape_char(c: char, x: Seq<char>)
    ensures
        unescaped(escaped_char(c) + x) == seq![c] + unescaped(x),
{
    reveal_strlit("&lt;");
    reveal_strlit("&gt;");
    reveal_strlit("&amp;");
    reveal_strlit("&quot;");
    reveal_strlit("&#39;");
    let e = escaped_char(c);
    let t = e + x;
    let n = e.len() as int;
    let lt = seq!['&', 'l', 't', ';'];
    let gt = seq!['&', 'g', 't', ';'];
    let amp = seq!['&', 'a', 'm', 'p', ';'];
    let quot = seq!['&', 'q', 'u', 'o', 't', ';'];
    let apos = seq!['&', '#', '3', '9', ';'];
    assert(t.take(n) =~= e);
    assert(t.skip(n) =~= x);
    if c == '<' {
        assert(e =~= lt);
    } else if c == '>' {
        assert(e =~= gt);
        assert(t[1] == 'g');
        if has_prefix(t, lt) { lemma_prefix_char(t, lt, 1); }
    } else if c == '&' {
        assert(e =~= amp);
        assert(t[1] == 'a');
        if has_prefix(t, lt) { lemma_prefix_char(t, lt, 1); }
        if has_prefix(t, gt) { lemma_prefix_char(t, gt, 1); }
    } else if c == '"' {
        assert(e =~= quot);
        assert(t[1] == 'q');
        if has_prefix(t, lt) { lemma_prefix_char(t, lt, 1); }
        if has_prefix(t, gt) { lemma_prefix_char(t, gt, 1); }
        if has_prefix(t, amp) { lemma_prefix_char(t, amp, 1); }
    } else if c == '\'' {
        assert(e =~= apos);
        assert(t[1] == '#');
        if has_prefix(t, lt) { lemma_prefix_char(t, lt, 1); }
        if has_prefix(t, gt) { lemma_prefix_char(t, gt, 1); }
        if has_prefix(t, amp) { lemma_prefix_char(t, amp, 1); }
        if has_prefix(t, quot) { lemma_prefix_char(t, quot, 1); }
    } else {
        assert(e =~= seq![c]);
        assert(t[0] == c);
        if has_prefix(t, lt) { lemma_prefix_char(t, lt, 0); }
        if has_prefix(t, gt) { lemma_prefix_char(t, gt, 0); }
        if has_prefix(t, amp) { lemma_prefix_char(t, amp, 0); }
        if has_prefix(t, quot) { lemma_prefix_char(t, quot, 0); }
        if has_prefix(t, apos) { lemma_prefix_char(t, apos, 0); }
    }
}

/// Reading back escaped text gives the text.
pub proof fn lemma_unescape_escaped(s: Seq<char>)
    ensures
        unescaped(escaped(s)) == s,
    decreases s.len(),
{
    if s.len() > 0 {
        let rest = s.drop_first();
        lemma_unescape_escaped(rest);
        lemma_escaped_append(seq![s[0]], rest);
        assert(seq![s[0]] + rest =~= s);
        assert(seq![s[0]].drop_last() =~= Seq::<char>::empty());
        assert(escaped(Seq::<char>::empty()) =~= Seq::<char>::empty());
        assert(seq![s[0]].last() == s[0]);
        assert(escaped(seq![s[0]]) =~= escaped_char(s[0]));
        lemma_unescape_char(s[0], escaped(rest));
    }
}

/// Escaping is injective: different texts never escape to the same HTML.
pub proof fn lemma_escaped_injective(a: Seq<char>, b: Seq<char>)
    requires
        escaped(a) == escaped(b),
    ensures
        a == b,
{
    lemma_unescape_escaped(a);
    lemma_unescape_escaped(b);
}

/// Escape HTML special characters.
pub fn escape_html(text: &Vec<char>) -> (r: Vec<char>)
    ensures
        r@ == escaped(text@),
{
    let mut out: Vec<char> = Vec::new();
    let mut i: usize = 0;
    while i < text.len()
        invariant
            i <= text.len(),
            out@ == escaped(text@.take(i as int)),
        decreases text.len() - i,
    {
        let c = text[i];
        if c == '<' {
            push_str(&mut out, "&lt;");
        } else if c == '>' {
            push_str(&mut out, "&gt;");
        } else if c == '&' {
            push_str(&mut out, "&amp;");
        } else if c == '"' {
            push_str(&mut out, "&quot;");
        } else if c == '\'' {
            push_str(&mut out, "&#39;");
        } else {
            out.push(c);
        }
        assert(text@.take(i + 1).drop_last() =~= text@.take(i as int));
        i += 1;
    }
    assert(text@.take(text.len() as int) =~= text@);
    out
}

// ---------------------------------------------------------------------
// Patterns
// ---------------------------------------------------------------------

/// Length of the run of characters other than `d` that starts at `i`.
pub open spec fn run_without(s: Seq<char>, i: int, d: char) -> nat
    decreases s.len() - i,
{
    if 0 <= i < s.len() && s[i] != d {
        1 + run_without(s, i + 1, d)
    } else {
        0
    }
}

/// A single or double quote.
pub open spec fn is_quote(c: char) -> bool {
    c == '"' || c == '\''
}

/// Length of the run of characters other than quotes that starts at `i`.
pub open spec fn run_without_quotes(s: Seq<char>, i: int) -> nat
    decreases s.len() - i,
{
    if 0 <= i < s.len() && !is_quote(s[i]) {
        1 + run_without_quotes(s, i + 1)
    } else {
        0
    }
}

/// Length of the run of white space that starts at `i`.
pub open spec fn ws_run(s: Seq<char>, i: int) -> nat
    decreases s.len() - i,
{
    if 0 <= i < s.len() && is_ws(s[i]) {
        1 + ws_run(s, i + 1)
    } else {
        0
    }
}

/// `d` repeated `w` times (`w` is 1 or 2), then one or more characters
/// other than `d`, then `d` repeated `w` times, starting at `i`.
pub open spec fn delimited_at(s: Seq<char>, i: int, d: char, w: int) -> Option<Found> {
    let a = i + w;
    let r = run_without(s, a, d);
    if 0 <= i && a <= s.len() && s[i] == d && (w == 2 ==> s[i + 1] == d) && r >= 1 && a + r + w
        <= s.len() && (w == 2 ==> s[a + r + 1] == d) {
        Some((a + r + w, s.subrange(a, a + r), seq![], None))
    } else {
        None
    }
}

/// `[text](url)` starting at `i`.
pub open spec fn link_at(s: Seq<char>, i: int) -> Option<Found> {
    let r1 = run_without(s, i + 1, ']');
    let k = i + 1 + r1;
    let r2 = run_without(s, k + 2, ')');
    let m = k + 2 + r2;
    if 0 <= i < s.len() && s[i] == '[' && r1 >= 1 && k + 1 < s.len() && s[k + 1] == '(' && r2 >= 1
        && m < s.len() {
        Some((m + 1, s.subrange(i + 1, k), s.subrange(k + 2, m), None))
    } else {
        None
    }
}

/// A title after an image url ending at `q`: white space, a quote, a
/// quote-free title, a quote, then `)`.  Gives the title and the end.
pub open spec fn title_at(s: Seq<char>, q: int) -> Option<(Seq<char>, int)> {
    let w = ws_run(s, q);
    let o = q + w;
    let t = run_without_quotes(s, o + 1);
    let c = o + 1 + t;
    if 0 <= q && w >= 1 && o < s.len() && is_quote(s[o]) && c + 1 < s.len() && s[c + 1] == ')' {
        Some((s.subrange(o + 1, c), c + 2))
    } else {
        None
    }
}

/// The shortest image url that ends at `q` or later and is followed by a
/// title and `)` or by `)`: where it ends, the title, and where the image
/// ends.
pub open spec fn image_tail(s: Seq<char>, q: int) -> Option<(int, Option<Seq<char>>, int)>
    decreases s.len() - q,
{
    if q < 0 || q >= s.len() {
        None
    } else if let Some((t, e)) = title_at(s, q) {
        Some((q, Some(t), e))
    } else if s[q] == ')' {
        Some((q, None, q + 1))
    } else {
        image_tail(s, q + 1)
    }
}

/// `![alt](url)` or `![alt](url "title")` starting at `i`.
pub open spec fn image_at(s: Seq<char>, i: int) -> Option<Found> {
    let r1 = run_without(s, i + 2, ']');
    let k = i + 2 + r1;
    let u = k + 2;
    if 0 <= i && i + 1 < s.len() && s[i] == '!' && s[i + 1] == '[' && k + 1 < s.len() && s[k + 1]
        == '(' && u < s.len() && s[u] != ')' {
        match image_tail(s, u + 1) {
            Some((q, title, e)) => Some((e, s.subrange(i + 2, k), s.subrange(u, q), title)),
            None => None,
        }
    } else {
        None
    }
}

/// The occurrence of the pattern of `rule` that starts at `i`, if any.
pub open spec fn match_at(rule: Rule, s: Seq<char>, i: int) -> Option<Found> {
    match rule {
        Rule::Code => delimited_at(s, i, '`', 1),
        Rule::Strikethrough => delimited_at(s, i, '~', 2),
        Rule::Bold => delimited_at(s, i, '*', 2),
        Rule::PlainBold => delimited_at(s, i, '*', 2),
        Rule::Italic => delimited_at(s, i, '_', 1),
        Rule::Image => image_at(s, i),
        Rule::Link => link_at(s, i),
    }
}

proof fn lemma_run_without_bound(s: Seq<char>, i: int, d: char)
    requires
        0 <= i <= s.len(),
    ensures
        i + run_without(s, i, d) <= s.len(),
        i + run_without(s, i, d) < s.len() ==> s[i + run_without(s, i, d)] == d,
    decreases s.len() - i,
{
    if i < s.len() && s[i] != d {
        lemma_run_without_bound(s, i + 1, d);
    }
}

proof fn lemma_image_tail_bound(s: Seq<char>, q: int)
    requires
        0 <= q,
    ensures
        image_tail(s, q) matches Some((p, _, e)) ==> q <= p < e <= s.len(),
    decreases s.len() - q,
{
    if q < s.len() && title_at(s, q) is None && s[q] != ')' {
        lemma_image_tail_bound(s, q + 1);
    }
}

/// An occurrence ends after it starts and inside the text.
pub proof fn lemma_match_end(rule: Rule, s: Seq<char>, i: int)
    requires
        0 <= i < s.len(),
    ensures
        match_at(rule, s, i) matches Some(m) ==> i < m.0 <= s.len(),
{
    if i + 1 < s.len() {
        lemma_image_tail_bound(s, i + 1);
        let k = i + 2 + run_without(s, i + 2, ']');
        if i + 2 <= s.len() && k + 2 >= 0 {
            lemma_image_tail_bound(s, k + 3);
        }
    }
}

/// Every occurrence of the pattern of `rule` in `s[i..]`, leftmost first,
/// replaced by `render` of it; the text between occurrences is kept.
pub open spec fn replace_all(
    s: Seq<char>,
    i: int,
    rule: Rule,
    render: spec_fn(Found) -> Seq<char>,
) -> Seq<char>
    decreases s.len() - i,
{
    if i < 0 || i >= s.len() {
        seq![]
    } else {
        match match_at(rule, s, i) {
            Some(m) => {
                proof {
                    lemma_match_end(rule, s, i);
                }
                render(m) + replace_all(s, m.0, rule, render)
            },
            None => seq![s[i]] + replace_all(s, i + 1, rule, render),
        }
    }
}

// ---------------------------------------------------------------------
// Rendering
// ---------------------------------------------------------------------

/// How an occurrence is written when its text is only escaped.
pub open spec fn render_plain(rule: Rule, m: Found) -> Seq<char> {
    match rule {
        Rule::Code => "<code>"@ + escaped(m.1) + "</code>"@,
        Rule::Italic => "<em>"@ + escaped(m.1) + "</em>"@,
        Rule::Image => match m.3 {
            Some(t) => "<img src=\""@ + escaped(m.2) + "\" alt=\""@ + escaped(m.1) + "\" title=\""@
                + escaped(t) + "\" />"@,
            None => "<img src=\""@ + escaped(m.2) + "\" alt=\""@ + escaped(m.1) + "\" />"@,
        },
        _ => "<strong>"@ + escaped(m.1) + "</strong>"@,
    }
}

/// Rendering function of an escaping rule.
pub open spec fn plain(rule: Rule) -> spec_fn(Found) -> Seq<char> {
    |m: Found| render_plain(rule, m)
}

/// Bold then italic, with escaped contents (the markup allowed inside
/// strikethrough, bold and link text).
pub open spec fn inline_simple_html(s: Seq<char>) -> Seq<char> {
    let bold = replace_all(s, 0, Rule::PlainBold, plain(Rule::PlainBold));
    replace_all(bold, 0, Rule::Italic, plain(Rule::Italic))
}

/// How an occurrence is written when its text may hold bold and italic.
pub open spec fn render_rich(rule: Rule, m: Found) -> Seq<char> {
    match rule {
        Rule::Strikethrough => "<del>"@ + inline_simple_html(m.1) + "</del>"@,
        Rule::Link => "<a href=\""@ + escaped(m.2) + "\">"@ + inline_simple_html(m.1) + "</a>"@,
        _ => "<strong>"@ + inline_simple_html(m.1) + "</strong>"@,
    }
}

/// Rendering function of a rule whose text may hold bold and italic.
pub open spec fn rich(rule: Rule) -> spec_fn(Found) -> Seq<char> {
    |m: Found| render_rich(rule, m)
}

/// Inline markdown of `s`: code spans, then strikethrough, bold, italic,
/// images and links, each pass over the output of the one before.
#[verifier::opaque]
pub open spec fn inline_html(s: Seq<char>) -> Seq<char> {
    let code = replace_all(s, 0, Rule::Code, plain(Rule::Code));
    let del = replace_all(code, 0, Rule::Strikethrough, rich(Rule::Strikethrough));
    let bold = replace_all(del, 0, Rule::Bold, rich(Rule::Bold));
    let em = replace_all(bold, 0, Rule::Italic, plain(Rule::Italic));
    let img = replace_all(em, 0, Rule::Image, plain(Rule::Image));
    replace_all(img, 0, Rule::Link, rich(Rule::Link))
}

/// A character that can open an inline construct.
pub open spec fn is_markup_char(c: char) -> bool {
    c == '`' || c == '~' || c == '*' || c == '_' || c == '!' || c == '['
}

proof fn lemma_replace_all_unmatched(
    s: Seq<char>,
    i: int,
    rule: Rule,
    render: spec_fn(Found) -> Seq<char>,
)
    requires
        0 <= i <= s.len(),
        forall|k: int| 0 <= k < s.len() ==> !is_markup_char(#[trigger] s[k]),
    ensures
        replace_all(s, i, rule, render) == s.skip(i),
    decreases s.len() - i,
{
    if i < s.len() {
        assert(!is_markup_char(s[i]));
        assert(match_at(rule, s, i) is None);
        lemma_replace_all_unmatched(s, i + 1, rule, render);
        assert(seq![s[i]] + s.skip(i + 1) =~= s.skip(i));
    } else {
        assert(s.skip(i) =~= Seq::<char>::empty());
    }
}

/// Text without any of the characters that open inline markup
/// (`` ` `` `~` `*` `_` `!` `[`) is left exactly as it is.
pub proof fn lemma_inline_plain_text(s: Seq<char>)
    requires
        forall|k: int| 0 <= k < s.len() ==> !is_markup_char(#[trigger] s[k]),
    ensures
        inline_html(s) == s,
        inline_simple_html(s) == s,
{
    reveal(inline_html);
    assert(s.skip(0) =~= s);
    lemma_replace_all_unmatched(s, 0, Rule::Code, plain(Rule::Code));
    lemma_replace_all_unmatched(s, 0, Rule::Strikethrough, rich(Rule::Strikethrough));
    lemma_replace_all_unmatched(s, 0, Rule::Bold, rich(Rule::Bold));
    lemma_replace_all_unmatched(s, 0, Rule::Italic, plain(Rule::Italic));
    lemma_replace_all_unmatched(s, 0, Rule::Image, plain(Rule::Image));
    lemma_replace_all_unmatched(s, 0, Rule::Link, rich(Rule::Link));
    lemma_replace_all_unmatched(s, 0, Rule::PlainBold, plain(Rule::PlainBold));
}

// ---------------------------------------------------------------------
// Executable matching
// ---------------------------------------------------------------------

/// An occurrence of a pattern, with copies of its groups.
pub struct InlineMatch {
    pub end: usize,
    pub first: Vec<char>,
    pub second: Vec<char>,
    pub third: Option<Vec<char>>,
}

impl InlineMatch {
    /// The occurrence as a value of the model.
    pub open spec fn found(&self) -> Found {
        (
            self.end as int,
            self.first@,
            self.second@,
            match self.third {
                Some(t) => Some(t@),
                None => None,
            },
        )
    }
}

fn run_without_exec(s: &Vec<char>, i: usize, d: char) -> (r: usize)
    requires
        i <= s.len(),
    ensures
        r == run_without(s@, i as int, d),
        i + r <= s.len(),
{
    let mut j = i;
    while j < s.len() && s[j] != d
        invariant
            i <= j <= s.len(),
            run_without(s@, i as int, d) == (j - i) + run_without(s@, j as int, d),
        decreases s.len() - j,
    {
        j += 1;
    }
    j - i
}

fn run_without_quotes_exec(s: &Vec<char>, i: usize) -> (r: usize)
    requires
        i <= s.len(),
    ensures
        r == run_without_quotes(s@, i as int),
        i + r <= s.len(),
{
    let mut j = i;
    while j < s.len() && s[j] != '"' && s[j] != '\''
        invariant
            i <= j <= s.len(),
            run_without_quotes(s@, i as int) == (j - i) + run_without_quotes(s@, j as int),
        decreases s.len() - j,
    {
        j += 1;
    }
    j - i
}

fn ws_run_exec(s: &Vec<char>, i: usize) -> (r: usize)
    requires
        i <= s.len(),
    ensures
        r == ws_run(s@, i as int),
        i + r <= s.len(),
{
    let mut j = i;
    while j < s.len() && is_whitespace(s[j])
        invariant
            i <= j <= s.len(),
            ws_run(s@, i as int) == (j - i) + ws_run(s@, j as int),
        decreases s.len() - j,
    {
        j += 1;
    }
    j - i
}

fn match_delimited(s: &Vec<char>, i: usize, d: char, w: usize) -> (r: Option<InlineMatch>)
    requires
        i < s.len(),
        w == 1 || w == 2,
    ensures
        match r {
            Some(m) => delimited_at(s@, i as int, d, w as int) == Some(m.found()),
            None => delimited_at(s@, i as int, d, w as int) is None,
        },
{
    if s.len() - i < w || s[i] != d || (w == 2 && s[i + 1] != d) {
        return None;
    }
    let a = i + w;
    let r = run_without_exec(s, a, d);
    if r == 0 || s.len() - (a + r) < w || (w == 2 && s[a + r + 1] != d) {
        return None;
    }
    let first = slice_of(s, a, a + r);
    Some(InlineMatch { end: a + r + w, first, second: Vec::new(), third: None })
}

fn match_link(s: &Vec<char>, i: usize) -> (r: Option<InlineMatch>)
    requires
        i < s.len(),
    ensures
        match r {
            Some(m) => link_at(s@, i as int) == Some(m.found()),
            None => link_at(s@, i as int) is None,
        },
{
    if s[i] != '[' {
        return None;
    }
    let r1 = run_without_exec(s, i + 1, ']');
    let k = i + 1 + r1;
    if r1 == 0 || s.len() - k <= 1 || s[k + 1] != '(' {
        return None;
    }
    let r2 = run_without_exec(s, k + 2, ')');
    let m = k + 2 + r2;
    if r2 == 0 || m >= s.len() {
        return None;
    }
    let first = slice_of(s, i + 1, k);
    let second = slice_of(s, k + 2, m);
    Some(InlineMatch { end: m + 1, first, second, third: None })
}

fn match_title(s: &Vec<char>, q: usize) -> (r: Option<(Vec<char>, usize)>)
    requires
        q <= s.len(),
    ensures
        match r {
            Some((t, e)) => title_at(s@, q as int) == Some((t@, e as int)),
            None => title_at(s@, q as int) is None,
        },
{
    let w = ws_run_exec(s, q);
    let o = q + w;
    if w == 0 || o >= s.len() || (s[o] != '"' && s[o] != '\'') {
        return None;
    }
    let t = run_without_quotes_exec(s, o + 1);
    let c = o + 1 + t;
    if s.len() - c <= 1 || s[c + 1] != ')' {
        return None;
    }
    let title = slice_of(s, o + 1, c);
    Some((title, c + 2))
}

fn match_image(s: &Vec<char>, i: usize) -> (r: Option<InlineMatch>)
    requires
        i < s.len(),
    ensures
        match r {
            Some(m) => image_at(s@, i as int) == Some(m.found()),
            None => image_at(s@, i as int) is None,
        },
{
    if i + 1 >= s.len() || s[i] != '!' || s[i + 1] != '[' {
        return None;
    }
    let r1 = run_without_exec(s, i + 2, ']');
    let k = i + 2 + r1;
    if s.len() - k <= 1 || s[k + 1] != '(' {
        return None;
    }
    let u = k + 2;
    if u >= s.len() || s[u] == ')' {
        return None;
    }
    let mut q = u + 1;
    while q < s.len()
        invariant
            u < q <= s.len(),
            image_at(s@, i as int) == match image_tail(s@, q as int) {
                Some((p, title, e)) => Some((e, s@.subrange(i + 2, k as int), s@.subrange(u as int, p), title)),
                None => None,
            },
            k == i + 2 + run_without(s@, i + 2, ']'),
            u == k + 2,
        decreases s.len() - q,
    {
        match match_title(s, q) {
            Some((title, e)) => {
                let alt = slice_of(s, i + 2, k);
                let url = slice_of(s, u, q);
                return Some(InlineMatch { end: e, first: alt, second: url, third: Some(title) });
            },
            None => {},
        }
        if s[q] == ')' {
            let alt = slice_of(s, i + 2, k);
            let url = slice_of(s, u, q);
            return Some(InlineMatch { end: q + 1, first: alt, second: url, third: None });
        }
        q += 1;
    }
    None
}

/// The occurrence of the pattern of `rule` that starts at `i`, if any.
fn match_rule(rule: Rule, s: &Vec<char>, i: usize) -> (r: Option<InlineMatch>)
    requires
        i < s.len(),
    ensures
        match r {
            Some(m) => match_at(rule, s@, i as int) == Some(m.found()),
            None => match_at(rule, s@, i as int) is None,
        },
{
    match rule {
        Rule::Code => match_delimited(s, i, '`', 1),
        Rule::Strikethrough => match_delimited(s, i, '~', 2),
        Rule::Bold => match_delimited(s, i, '*', 2),
        Rule::PlainBold => match_delimited(s, i, '*', 2),
        Rule::Italic => match_delimited(s, i, '_', 1),
        Rule::Image => match_image(s, i),
        Rule::Link => match_link(s, i),
    }
}

// ---------------------------------------------------------------------
// Executable rendering
// ---------------------------------------------------------------------

fn write_plain(out: &mut Vec<char>, rule: Rule, m: &InlineMatch)
    requires
        rule == Rule::Code || rule == Rule::Italic || rule == Rule::Image || rule == Rule::PlainBold,
    ensures
        final(out)@ == old(out)@ + render_plain(rule, m.found()),
{
    match rule {
        Rule::Code => {
            push_str(out, "<code>");
            push_all(out, &escape_html(&m.first));
            push_str(out, "</code>");
        },
        Rule::Italic => {
            push_str(out, "<em>");
            push_all(out, &escape_html(&m.first));
            push_str(out, "</em>");
        },
        Rule::Image => {
            push_str(out, "<img src=\"");
            push_all(out, &escape_html(&m.second));
            push_str(out, "\" alt=\"");
            push_all(out, &escape_html(&m.first));
            match &m.third {
                Some(t) => {
                    push_str(out, "\" title=\"");
                    push_all(out, &escape_html(t));
                    push_str(out, "\" />");
                },
                None => {
                    push_str(out, "\" />");
                },
            }
        },
        _ => {
            push_str(out, "<strong>");
            push_all(out, &escape_html(&m.first));
            push_str(out, "</strong>");
        },
    }
}

fn write_rich(out: &mut Vec<char>, rule: Rule, m: &InlineMatch)
    requires
        rule == Rule::Strikethrough || rule == Rule::Bold || rule == Rule::Link,
    ensures
        final(out)@ == old(out)@ + render_rich(rule, m.found()),
{
    match rule {
        Rule::Strikethrough => {
            push_str(out, "<del>");
            push_all(out, &parse_inline_simple(&m.first));
            push_str(out, "</del>");
        },
        Rule::Link => {
            push_str(out, "<a href=\"");
            push_all(out, &escape_html(&m.second));
            push_str(out, "\">");
            push_all(out, &parse_inline_simple(&m.first));
            push_str(out, "</a>");
        },
        _ => {
            push_str(out, "<strong>");
            push_all(out, &parse_inline_simple(&m.first));
            push_str(out, "</strong>");
        },
    }
}

/// Rewrites every occurrence of an escaping rule.
fn replace_plain(s: &Vec<char>, rule: Rule) -> (r: Vec<char>)
    requires
        rule == Rule::Code || rule == Rule::Italic || rule == Rule::Image || rule == Rule::PlainBold,
    ensures
        r@ == replace_all(s@, 0, rule, plain(rule)),
{
    let mut out: Vec<char> = Vec::new();
    let mut i: usize = 0;
    while i < s.len()
        invariant
            i <= s.len(),
            rule == Rule::Code || rule == Rule::Italic || rule == Rule::Image || rule
                == Rule::PlainBold,
            replace_all(s@, 0, rule, plain(rule)) == out@ + replace_all(s@, i as int, rule, plain(rule)),
        decreases s.len() - i,
    {
        let ghost before = out@;
        match match_rule(rule, s, i) {
            Some(m) => {
                proof {
                    lemma_match_end(rule, s@, i as int);
                }
                write_plain(&mut out, rule, &m);
                assert(out@ + replace_all(s@, m.end as int, rule, plain(rule)) =~= before
                    + replace_all(s@, i as int, rule, plain(rule)));
                i = m.end;
            },
            None => {
                out.push(s[i]);
                assert(out@ + replace_all(s@, i + 1, rule, plain(rule)) =~= before
                    + replace_all(s@, i as int, rule, plain(rule)));
                i += 1;
            },
        }
    }
    assert(out@ + replace_all(s@, i as int, rule, plain(rule)) =~= out@);
    out
}

/// Rewrites every occurrence of a rule whose text may hold bold and italic.
fn replace_rich(s: &Vec<char>, rule: Rule) -> (r: Vec<char>)
    requires
        rule == Rule::Strikethrough || rule == Rule::Bold || rule == Rule::Link,
    ensures
        r@ == replace_all(s@, 0, rule, rich(rule)),
{
    let mut out: Vec<char> = Vec::new();
    let mut i: usize = 0;
    while i < s.len()
        invariant
            i <= s.len(),
            rule == Rule::Strikethrough || rule == Rule::Bold || rule == Rule::Link,
            replace_all(s@, 0, rule, rich(rule)) == out@ + replace_all(s@, i as int, rule, rich(rule)),
        decreases s.len() - i,
    {
        let ghost before = out@;
        match match_rule(rule, s, i) {
            Some(m) => {
                proof {
                    lemma_match_end(rule, s@, i as int);
                }
                write_rich(&mut out, rule, &m);
                assert(out@ + replace_all(s@, m.end as int, rule, rich(rule)) =~= before
                    + replace_all(s@, i as int, rule, rich(rule)));
                i = m.end;
            },
            None => {
                out.push(s[i]);
                assert(out@ + replace_all(s@, i + 1, rule, rich(rule)) =~= before
                    + replace_all(s@, i as int, rule, rich(rule)));
                i += 1;
            },
        }
    }
    assert(out@ + replace_all(s@, i as int, rule, rich(rule)) =~= out@);
    out
}

/// Parse inline markdown without code, strikethrough, images or links (for
/// nested text): bold, then italic.
pub fn parse_inline_simple(text: &Vec<char>) -> (r: Vec<char>)
    ensures
        r@ == inline_simple_html(text@),
{
    let bold = replace_plain(text, Rule::PlainBold);
    replace_plain(&bold, Rule::Italic)
}

/// Parse inline markdown: code spans first, then strikethrough, bold,
/// italic, images and links.
pub fn parse_inline(text: &Vec<char>) -> (r: Vec<char>)
    ensures
        r@ == inline_html(text@),
{
    let code = replace_plain(text, Rule::Code);
    let del = replace_rich(&code, Rule::Strikethrough);
    let bold = replace_rich(&del, Rule::Bold);
    let em = replace_plain(&bold, Rule::Italic);
    let img = replace_plain(&em, Rule::Image);
    let r = replace_rich(&img, Rule::Link);
    proof {
        reveal(inline_html);
    }
    r
}

} // verus!
