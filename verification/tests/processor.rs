use markdown::chunker::{chunk_by_lines, Chunk};
use markdown::highlighter::highlight_code_blocks;
use markdown::parser::{parse_chunk, ParsedChunk};
use markdown::processor::{merge_parsed_chunks, sort_chunks_by_index, DEFAULT_CHUNK_SIZE};
use rayon::iter::{IntoParallelIterator, ParallelIterator};

fn render(markdown: &str, chunk_size: usize) -> String {
    let chunks: Vec<Chunk> = chunk_by_lines(markdown, chunk_size);
    let parsed: Vec<ParsedChunk> = chunks.into_par_iter().map(parse_chunk).collect();
    highlight_code_blocks(&merge_parsed_chunks(parsed))
}

fn parsed(html: &str, index: usize) -> ParsedChunk {
    ParsedChunk { html: html.to_string(), index }
}

#[test]
fn test_process_markdown_parallel_basic() {
    let html = render("# Hello\n\nWorld", DEFAULT_CHUNK_SIZE);
    assert!(html.contains("<h1>"));
}

#[test]
fn test_process_markdown_parallel_preserves_order() {
    let html = render("# First\n\n# Second\n\n# Third", DEFAULT_CHUNK_SIZE);
    let first_pos = html.find("First");
    let second_pos = html.find("Second");
    let third_pos = html.find("Third");
    assert!(first_pos < second_pos);
    assert!(second_pos < third_pos);
}

#[test]
fn test_process_markdown_parallel_with_code() {
    let html = render("```js\nconsole.log('test');\n```", DEFAULT_CHUNK_SIZE);
    assert!(html.contains("language-js"));
}

#[test]
fn merge_sorts_by_index_and_joins_with_newlines() {
    let merged = merge_parsed_chunks(vec![parsed("c", 2), parsed("a", 0), parsed("b", 1)]);
    assert_eq!(merged, "a\nb\nc");
}

#[test]
fn merge_skips_newline_after_empty_output() {
    let merged = merge_parsed_chunks(vec![parsed("", 0), parsed("x", 1), parsed("", 2), parsed("y", 3)]);
    assert_eq!(merged, "x\n\ny");
    assert_eq!(merge_parsed_chunks(vec![]), "");
}

#[test]
fn sort_is_stable() {
    let sorted = sort_chunks_by_index(vec![parsed("b1", 1), parsed("a", 0), parsed("b2", 1), parsed("b3", 1)]);
    let names: Vec<&str> = sorted.iter().map(|p| p.html.as_str()).collect();
    assert_eq!(names, vec!["a", "b1", "b2", "b3"]);
}

#[test]
fn chunked_rendering_of_separate_blocks() {
    assert_eq!(render("# A\n\npara", 2), "<h1>A</h1>\n<p>para</p>");
}

#[test]
fn order_is_preserved_across_many_chunks() {
    let html = render("# First\n\n# Second\n\n# Third", 1);
    assert_eq!(html, "<h1>First</h1>\n\n<h1>Second</h1>\n\n<h1>Third</h1>");
}

#[test]
fn sorted_chunks_stay_in_place() {
    let sorted = sort_chunks_by_index(vec![parsed("a", 0), parsed("b", 1), parsed("c", 5)]);
    let names: Vec<&str> = sorted.iter().map(|p| p.html.as_str()).collect();
    assert_eq!(names, vec!["a", "b", "c"]);
}

#[test]
fn arrival_order_does_not_change_the_document() {
    let doc = "# A\n\n- x\n- y\n\n```\ncode\n```\n\n| a | b |\n---\n| 1 | 2 |\n\n> q\n\npara";
    let chunks = chunk_by_lines(doc, 2);
    let in_order: Vec<ParsedChunk> = chunks.into_iter().map(parse_chunk).collect();
    let htmls: Vec<String> = in_order.iter().map(|p| p.html.clone()).collect();
    let expected = htmls
        .iter()
        .skip_while(|h| h.is_empty())
        .cloned()
        .collect::<Vec<_>>()
        .join("\n");
    let mut arrived = in_order.clone();
    arrived.reverse();
    assert_eq!(merge_parsed_chunks(arrived), expected);
    let mut rotated = in_order.clone();
    rotated.rotate_left(3);
    assert_eq!(merge_parsed_chunks(rotated), expected);
    assert_eq!(merge_parsed_chunks(in_order), expected);
}

#[test]
fn leading_empty_chunks_get_no_separator() {
    let html = render("\n\n# T", 1);
    assert_eq!(html, "<h1>T</h1>");
}
