use markdown::chunker::{chunk_by_lines, Chunk};

fn contents(chunks: &[Chunk]) -> Vec<String> {
    chunks.iter().map(|c| c.content.clone()).collect()
}

#[test]
fn test_chunk_by_lines_empty() {
    let chunks = chunk_by_lines("", 100);
    assert_eq!(chunks.len(), 1);
    assert_eq!(chunks[0].content, "");
    assert_eq!(chunks[0].index, 0);
}

#[test]
fn test_chunk_by_lines_single_chunk() {
    let markdown = "Line 1\nLine 2\nLine 3";
    let chunks = chunk_by_lines(markdown, 100);
    assert_eq!(chunks.len(), 1);
    assert_eq!(chunks[0].content, markdown);
    assert_eq!(chunks[0].index, 0);
}

#[test]
fn test_chunk_by_lines_multiple_chunks() {
    let markdown = "Line 1\nLine 2\nLine 3\nLine 4\nLine 5";
    let chunks = chunk_by_lines(markdown, 2);
    assert_eq!(chunks.len(), 3);
    assert_eq!(chunks[0].content, "Line 1\nLine 2");
    assert_eq!(chunks[0].index, 0);
    assert_eq!(chunks[1].content, "Line 3\nLine 4");
    assert_eq!(chunks[1].index, 1);
    assert_eq!(chunks[2].content, "Line 5");
    assert_eq!(chunks[2].index, 2);
}

#[test]
fn chunk_lines_with_crlf_and_trailing_newline() {
    let chunks = chunk_by_lines("a\r\nb\n\nc\n", 2);
    assert_eq!(contents(&chunks), vec!["a\nb".to_string(), "\nc".to_string()]);
    assert_eq!(chunks[1].index, 1);
}

#[test]
fn chunk_lone_carriage_return_is_kept() {
    let chunks = chunk_by_lines("a\r", 10);
    assert_eq!(contents(&chunks), vec!["a\r".to_string()]);
}

#[test]
fn chunk_only_newline_is_one_empty_line() {
    let chunks = chunk_by_lines("\n", 3);
    assert_eq!(contents(&chunks), vec!["".to_string()]);
}

#[test]
fn chunks_rejoin_to_the_lines_of_the_document() {
    let doc = "one\ntwo\r\nthree\n\nfive\nsix\nseven";
    for size in 1..9 {
        let chunks = chunk_by_lines(doc, size);
        let joined = contents(&chunks).join("\n");
        assert_eq!(joined, doc.lines().collect::<Vec<_>>().join("\n"));
        for (k, c) in chunks.iter().enumerate() {
            assert_eq!(c.index, k);
            assert!(c.content.lines().count() <= size.max(1));
        }
    }
}

#[test]
fn chunk_exact_multiple_of_size() {
    let chunks = chunk_by_lines("1\n2\n3\n4", 2);
    assert_eq!(contents(&chunks), vec!["1\n2".to_string(), "3\n4".to_string()]);
}

#[test]
fn chunk_unicode_lines() {
    let chunks = chunk_by_lines("héllo\nwörld\n日本", 2);
    assert_eq!(contents(&chunks), vec!["héllo\nwörld".to_string(), "日本".to_string()]);
}

#[test]
fn chunks_rebuild_a_document_without_carriage_returns() {
    let doc = "# Title\n\nsome text\n- a\n- b\n\n```\ncode\n```";
    for size in 1..12 {
        let joined = contents(&chunk_by_lines(doc, size)).join("\n");
        assert_eq!(joined, doc);
    }
}
