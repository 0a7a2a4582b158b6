use markdown::highlighter::highlight_code_blocks;

#[test]
fn test_highlight_code_blocks() {
    let html = r#"<pre><code class="language-js">console.log('test');</code></pre>"#;
    let result = highlight_code_blocks(html);
    assert_eq!(result, html);
}

#[test]
fn highlight_keeps_any_text() {
    assert_eq!(highlight_code_blocks(""), "");
    assert_eq!(highlight_code_blocks("<p>a & b</p>\n"), "<p>a & b</p>\n");
}
