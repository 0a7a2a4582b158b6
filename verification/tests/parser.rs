use markdown::chunker::Chunk;
use markdown::list::parse_list;
use markdown::parser::{parse_blockquote, parse_chunk, parse_table};

fn html_of(content: &str) -> String {
    parse_chunk(Chunk { content: content.to_string(), index: 0 }).html
}

#[test]
fn test_parse_chunk_basic() {
    let chunk = Chunk { content: "# Hello World".to_string(), index: 0 };
    let parsed = parse_chunk(chunk);
    assert!(parsed.html.contains("<h1>"));
    assert_eq!(parsed.index, 0);
}

#[test]
fn test_parse_chunk_gfm_features() {
    let chunk = Chunk { content: "- [x] Task\n~~strikethrough~~".to_string(), index: 0 };
    let parsed = parse_chunk(chunk);
    assert!(parsed.html.contains("task-list-item"));
    assert!(parsed.html.contains("strikethrough") || parsed.html.contains("<del>"));
}

#[test]
fn parse_keeps_index() {
    let parsed = parse_chunk(Chunk { content: "text".to_string(), index: 7 });
    assert_eq!(parsed.index, 7);
    assert_eq!(parsed.html, "<p>text</p>");
}

#[test]
fn headings_of_each_level() {
    assert_eq!(html_of("# A"), "<h1>A</h1>");
    assert_eq!(html_of("###### F"), "<h6>F</h6>");
    assert_eq!(html_of("####### G"), "<p>####### G</p>");
    assert_eq!(html_of("#NoSpace"), "<p>#NoSpace</p>");
    assert_eq!(html_of("## **Bold** title"), "<h2><strong>Bold</strong> title</h2>");
}

#[test]
fn rules_and_paragraphs() {
    assert_eq!(html_of("---"), "<hr>");
    assert_eq!(html_of("a\nb\n\nc"), "<p>a b</p><p>c</p>");
    assert_eq!(html_of("  a  \n  b"), "<p>a b</p>");
    assert_eq!(html_of("a\n---"), "<p>a</p><hr>");
}

#[test]
fn code_blocks() {
    assert_eq!(
        html_of("```js\nlet a = 1 < 2;\n```"),
        "<pre><code class=\"language-js\">let a = 1 &lt; 2;</code></pre>"
    );
    assert_eq!(html_of("```\nx\n  y\n```\nafter"), "<pre><code>x\n  y</code></pre><p>after</p>");
    assert_eq!(html_of("```\nunclosed"), "<pre><code>unclosed</code></pre>");
}

#[test]
fn tables() {
    assert_eq!(
        html_of("| a | b |\n---\n| 1 | 2 |"),
        "<table><thead><tr><th>a</th><th>b</th></tr></thead><tbody><tr><td>1</td><td>2</td></tr></tbody></table>"
    );
    assert_eq!(
        html_of("a|b\n|---|---|\nc|d\n\nx"),
        "<table><thead><tr><th>a</th><th>b</th></tr></thead><tbody><tr><td>---</td><td>---</td></tr><tr><td>c</td><td>d</td></tr></tbody></table><p>x</p>"
    );
}

#[test]
fn blockquotes() {
    assert_eq!(html_of("> a\n> b"), "<blockquote><p>a</p><br><p>b</p></blockquote>");
    assert_eq!(html_of(">a\n>\n\n> c\nd"), "<blockquote><p>a</p><br><br><p>c</p></blockquote><p>d</p>");
}

#[test]
fn lists() {
    assert_eq!(html_of("- a\n- b"), "<ul><li>a<li>b</li></ul>");
    assert_eq!(html_of("1. a\n2. b"), "<ol><li>a<li>b</li></ol>");
    assert_eq!(html_of("- a\n1. b"), "<ul><li>a</ul><ol><li>b</li></ol>");
    assert_eq!(html_of("- a\n  - b\n- c"), "<ul><li>a<ul><li>b</li></ul></li><li>c</li></ul>");
    assert_eq!(html_of("- a\n  more"), "<ul><li>a more</li></ul>");
    assert_eq!(
        html_of("- [ ] todo\n- [x] done"),
        "<ul class=\"contains-task-list\"><li class=\"task-list-item\"><input type=\"checkbox\" class=\"task-list-item-checkbox\" disabled> todo<li class=\"task-list-item\"><input type=\"checkbox\" class=\"task-list-item-checkbox\" checked disabled> done</li></ul>"
    );
    assert_eq!(html_of("- a\n\n- b"), "<ul><li>a</ul><ul><li>b</li></ul>");
}

#[test]
fn inline_markup() {
    assert_eq!(html_of("`a<b`"), "<p><code>a&lt;b</code></p>");
    assert_eq!(html_of("**b** _i_ ~~s~~"), "<p><strong>b</strong> <em>i</em> <del>s</del></p>");
    assert_eq!(html_of("[x](http://a.b)"), "<p><a href=\"http://a.b\">x</a></p>");
    assert_eq!(html_of("![alt](u.png \"T\")"), "<p><img src=\"u.png\" alt=\"alt\" title=\"T\" /></p>");
    assert_eq!(html_of("![alt](u.png)"), "<p><img src=\"u.png\" alt=\"alt\" /></p>");
}

#[test]
fn list_like_lines_that_start_no_item_are_paragraphs() {
    assert_eq!(html_of("1a. b"), "<p>1a. b</p>");
    assert_eq!(html_of("3 apples. 4 pears.\nmore"), "<p>3 apples. 4 pears. more</p>");
    let parsed = parse_chunk(Chunk { content: "1a. b".to_string(), index: 4 });
    assert_eq!(parsed.index, 4);
}

#[test]
fn deeper_lines_that_open_no_nested_item_continue_the_item() {
    assert_eq!(html_of("- a\n  - "), "<ul><li>a -</li></ul>");
    assert_eq!(html_of("- a\n  1. \n- b"), "<ul><li>a 1.<li>b</li></ul>");
}

fn lines(v: &[&str]) -> Vec<Vec<char>> {
    v.iter().map(|l| l.chars().collect()).collect()
}

fn text(v: &[char]) -> String {
    v.iter().collect()
}

#[test]
fn readers_past_the_end_give_empty_blocks() {
    let ls = lines(&["a|b", "---"]);
    let (h, j) = parse_table(&ls, 5);
    assert_eq!((text(&h), j), ("<table><thead></thead><tbody></tbody></table>".to_string(), 5));
    let (h, j) = parse_blockquote(&ls, 5);
    assert_eq!((text(&h), j), ("<blockquote></blockquote>".to_string(), 5));
    let (h, j) = parse_list(&ls, 5, 0);
    assert_eq!((text(&h), j), (String::new(), 5));
    let (h, j) = parse_list(&ls, 2, 0);
    assert_eq!((text(&h), j), (String::new(), 2));
}

#[test]
fn readers_report_where_they_stop() {
    let ls = lines(&["- a", "- b", "", "x"]);
    let (h, j) = parse_list(&ls, 0, 0);
    assert_eq!((text(&h), j), ("<ul><li>a<li>b</ul>".to_string(), 3));
    let ls = lines(&["> q", "p"]);
    let (h, j) = parse_blockquote(&ls, 0);
    assert_eq!((text(&h), j), ("<blockquote><p>q</p></blockquote>".to_string(), 1));
}

#[test]
fn empty_chunk_gives_empty_html() {
    assert_eq!(html_of(""), "");
    assert_eq!(html_of("\n\n  \n"), "");
}
