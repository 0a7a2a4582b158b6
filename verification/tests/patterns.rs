//! The grammar's matchers checked against the `regex` crate and `str`
//! methods on many generated lines.
use markdown::inline::{escape_html, parse_inline, parse_inline_simple};
use markdown::line_patterns::{match_heading, match_rule_line, match_task};
use markdown::text::{split_lines, trim_chars, trim_start_chars};
use regex::{Captures, Regex};

const ALPHABET: &[char] = &[
    '#', '#', '-', '-', ' ', ' ', '[', ']', 'x', '*', '*', '_', '~', '~', '`', '!', '(', ')',
    '"', '\'', '|', '>', '.', '1', 'a', 'b', '\t', '\u{a0}', '\u{2003}', '\u{85}', '\u{1680}',
    '\u{180e}', '\u{200b}', '\u{3000}', 'é', '<', '&', '\r',
];

struct Gen(u64);

impl Gen {
    fn next(&mut self) -> u64 {
        self.0 = self.0.wrapping_mul(6364136223846793005).wrapping_add(1442695040888963407);
        self.0 >> 33
    }
    fn line(&mut self, max: u64) -> String {
        let n = self.next() % (max + 1);
        (0..n).map(|_| ALPHABET[(self.next() % ALPHABET.len() as u64) as usize]).collect()
    }
}

fn chars(s: &str) -> Vec<char> {
    s.chars().collect()
}

fn string(v: &[char]) -> String {
    v.iter().collect()
}

fn esc(s: &str) -> String {
    string(&escape_html(&chars(s)))
}

fn group<'a>(c: &'a Captures, i: usize) -> &'a str {
    c.get(i).map(|m| m.as_str()).unwrap_or("")
}

#[test]
fn whitespace_and_trimming_agree_with_str() {
    let mut g = Gen(1);
    for _ in 0..3000 {
        let s = g.line(12);
        assert_eq!(string(&trim_chars(&chars(&s))), s.trim(), "{:?}", s);
        assert_eq!(string(&trim_start_chars(&chars(&s))), s.trim_start(), "{:?}", s);
    }
}

#[test]
fn line_splitting_agrees_with_str_lines() {
    let mut g = Gen(2);
    for _ in 0..2000 {
        let mut s = g.line(10);
        if g.next() % 2 == 0 {
            s = s.replace('a', "\n").replace('b', "\r\n");
        }
        let mine: Vec<String> = split_lines(&chars(&s)).iter().map(|l| string(l)).collect();
        let theirs: Vec<String> = s.lines().map(|l| l.to_string()).collect();
        assert_eq!(mine, theirs, "{:?}", s);
    }
}

#[test]
fn heading_matcher_agrees_with_regex() {
    let re = Regex::new(r"^(#{1,6})\s+(.+)$").unwrap();
    let mut g = Gen(3);
    for _ in 0..5000 {
        let s = g.line(12);
        let expected = re.captures(&s).map(|c| (group(&c, 1).len(), group(&c, 2).to_string()));
        let mine = match_heading(&chars(&s)).map(|(h, t)| (h, string(&t)));
        assert_eq!(mine, expected, "{:?}", s);
    }
}

#[test]
fn rule_matcher_agrees_with_regex() {
    let re = Regex::new(r"^-{3,}$").unwrap();
    let mut g = Gen(4);
    for _ in 0..3000 {
        let s = g.line(6);
        assert_eq!(match_rule_line(&chars(&s)), re.is_match(&s), "{:?}", s);
    }
    assert!(match_rule_line(&chars("-----")));
    assert!(!match_rule_line(&chars("--")));
}

#[test]
fn task_matcher_agrees_with_regex() {
    let re = Regex::new(r"^(\s*)- \[([ x])\]\s+(.+)$").unwrap();
    let mut g = Gen(5);
    let prefixes = ["- [ ]", "- [x]", " - [x]", "\t- [ ]", "- [y]", "-[x]"];
    for _ in 0..5000 {
        let p = prefixes[(g.next() % prefixes.len() as u64) as usize];
        let s = format!("{}{}", p, g.line(5));
        let expected = re.captures(&s).map(|c| (group(&c, 2) == "x", group(&c, 3).to_string()));
        let mine = match_task(&chars(&s)).map(|(c, t)| (c, string(&t)));
        assert_eq!(mine, expected, "{:?}", s);
    }
}

struct Oracle {
    code: Regex,
    strike: Regex,
    bold: Regex,
    italic: Regex,
    image: Regex,
    link: Regex,
}

impl Oracle {
    fn new() -> Oracle {
        Oracle {
            code: Regex::new(r"`([^`]+)`").unwrap(),
            strike: Regex::new(r"~~([^~]+)~~").unwrap(),
            bold: Regex::new(r"\*\*([^*]+)\*\*").unwrap(),
            italic: Regex::new(r"_([^_]+)_").unwrap(),
            image: Regex::new(r#"!\[([^\]]*)\]\(([^)]+?)(?:\s+["']([^"']*)["'])?\)"#).unwrap(),
            link: Regex::new(r"\[([^\]]+)\]\(([^)]+)\)").unwrap(),
        }
    }

    fn simple(&self, text: &str) -> String {
        let r = self.bold.replace_all(text, |c: &Captures| format!("<strong>{}</strong>", esc(group(c, 1))));
        let r = self.italic.replace_all(&r, |c: &Captures| format!("<em>{}</em>", esc(group(c, 1))));
        r.to_string()
    }

    fn full(&self, text: &str) -> String {
        let r = self.code.replace_all(text, |c: &Captures| format!("<code>{}</code>", esc(group(c, 1))));
        let r = self.strike.replace_all(&r, |c: &Captures| format!("<del>{}</del>", self.simple(group(c, 1))));
        let r = self.bold.replace_all(&r, |c: &Captures| format!("<strong>{}</strong>", self.simple(group(c, 1))));
        let r = self.italic.replace_all(&r, |c: &Captures| format!("<em>{}</em>", esc(group(c, 1))));
        let r = self.image.replace_all(&r, |c: &Captures| match c.get(3) {
            Some(t) => format!(
                "<img src=\"{}\" alt=\"{}\" title=\"{}\" />",
                esc(group(c, 2)),
                esc(group(c, 1)),
                esc(t.as_str())
            ),
            None => format!("<img src=\"{}\" alt=\"{}\" />", esc(group(c, 2)), esc(group(c, 1))),
        });
        let r = self.link.replace_all(&r, |c: &Captures| {
            format!("<a href=\"{}\">{}</a>", esc(group(c, 2)), self.simple(group(c, 1)))
        });
        r.to_string()
    }
}

#[test]
fn inline_rendering_agrees_with_regex_passes() {
    let oracle = Oracle::new();
    let mut g = Gen(6);
    for _ in 0..3000 {
        let s = g.line(16);
        assert_eq!(string(&parse_inline(&chars(&s))), oracle.full(&s), "{:?}", s);
        assert_eq!(string(&parse_inline_simple(&chars(&s))), oracle.simple(&s), "{:?}", s);
    }
}

#[test]
fn inline_images_and_links_agree_with_regex_passes() {
    let pieces = ["![", "[", "](", ")", " \"t\"", " 't'", "\"", "a b", "  ", "x", "]", "(", "_u_"];
    let oracle = Oracle::new();
    let mut g = Gen(7);
    for _ in 0..3000 {
        let n = g.next() % 7;
        let s: String = (0..n).map(|_| pieces[(g.next() % pieces.len() as u64) as usize]).collect();
        assert_eq!(string(&parse_inline(&chars(&s))), oracle.full(&s), "{:?}", s);
    }
}

#[test]
fn escaping_examples() {
    assert_eq!(esc("<a href=\"x\">'&'</a>"), "&lt;a href=&quot;x&quot;&gt;&#39;&amp;&#39;&lt;/a&gt;");
    assert_eq!(esc("plain é"), "plain é");
}

#[test]
fn escaped_text_has_no_tag_or_quote_characters() {
    let mut g = Gen(8);
    for _ in 0..2000 {
        let s = g.line(12);
        let e = esc(&s);
        assert!(!e.contains(['<', '>', '"', '\'']), "{:?}", s);
    }
}

#[test]
fn plain_text_passes_through_inline_rendering() {
    for s in ["plain text 123 (a) ] & <b>", "", "a.b, c; d: e?", "日本語 ] )"] {
        assert_eq!(string(&parse_inline(&chars(s))), s);
        assert_eq!(string(&parse_inline_simple(&chars(s))), s);
    }
}

#[test]
fn different_texts_escape_differently() {
    let mut g = Gen(9);
    let mut seen = std::collections::HashMap::new();
    for _ in 0..3000 {
        let s = g.line(5);
        let e = esc(&s);
        if let Some(prev) = seen.insert(e.clone(), s.clone()) {
            assert_eq!(prev, s, "{:?}", e);
        }
    }
    assert_ne!(esc("<"), esc("&lt;"));
    assert_eq!(esc("&lt;"), "&amp;lt;");
}
