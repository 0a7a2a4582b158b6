//! Splitting a document into chunks of whole lines.
use vstd::prelude::*;
use crate::text::{chars_to_string, join, join_lines, lines_of, lines_view, split_lines, str_to_chars};

verus! {

/// A chunk of markdown content with its index for ordering.
#[derive(Clone, Debug)]
pub struct Chunk {
    pub content: String,
    pub index: usize,
}

/// The lines cut into consecutive groups of `size` lines; the last group
/// may be shorter (`<[T]>::chunks`).
pub open spec fn group_lines(lines: Seq<Seq<char>>, size: nat) -> Seq<Seq<Seq<char>>>
    decreases lines.len(),
{
    if lines.len() == 0 || size == 0 {
        seq![]
    } else if lines.len() <= size {
        seq![lines]
    } else {
        seq![lines.take(size as int)] + group_lines(lines.skip(size as int), size)
    }
}

/// The newline separator of the lines inside a chunk.
pub open spec fn newline() -> Seq<char> {
    seq!['\n']
}

/// The contents of the chunks of `markdown`: a single empty chunk for an
/// empty document, otherwise each group of `size` lines joined by `'\n'`.
pub open spec fn chunk_contents(markdown: Seq<char>, size: nat) -> Seq<Seq<char>> {
    if markdown.len() == 0 {
        seq![seq![]]
    } else {
        group_lines(lines_of(markdown), size).map_values(|g: Seq<Seq<char>>| join(g, newline()))
    }
}

/// A non-empty text has at least one line.
pub proof fn lemma_lines_nonempty(s: Seq<char>)
    requires
        s.len() > 0,
    ensures
        lines_of(s).len() > 0,
{
}

/// Every group holds between one and `size` lines, and the groups hold
/// the lines in their order.
pub proof fn lemma_group_lines(lines: Seq<Seq<char>>, size: nat)
    requires
        size > 0,
    ensures
        forall|k: int|
            0 <= k < group_lines(lines, size).len() ==> 1 <= #[trigger] group_lines(
                lines,
                size,
            )[k].len() <= size,
        group_lines(lines, size).flatten() == lines,
    decreases lines.len(),
{
    if lines.len() == 0 {
    } else if lines.len() <= size {
        assert(seq![lines].drop_first() =~= Seq::<Seq<Seq<char>>>::empty());
        assert(seq![lines].flatten() == lines + Seq::<Seq<Seq<char>>>::empty().flatten());
        assert(lines + Seq::<Seq<char>>::empty() =~= lines);
    } else {
        let g = group_lines(lines, size);
        let rest = group_lines(lines.skip(size as int), size);
        lemma_group_lines(lines.skip(size as int), size);
        assert(g.drop_first() =~= rest);
        assert(g.flatten() == g[0] + rest.flatten());
        assert(lines.take(size as int) + lines.skip(size as int) =~= lines);
        assert forall|k: int| 0 <= k < g.len() implies 1 <= #[trigger] g[k].len() <= size by {
            if k > 0 {
                assert(g[k] == rest[k - 1]);
            }
        }
    }
}

/// Every group but the last holds exactly `size` lines, and at most `size`
/// lines (at least one) make a single group: the chunks are as large as
/// `size` allows.
pub proof fn lemma_group_sizes(lines: Seq<Seq<char>>, size: nat)
    requires
        size > 0,
    ensures
        forall|k: int|
            0 <= k < group_lines(lines, size).len() - 1 ==> #[trigger] group_lines(lines, size)[k].len()
                == size,
        0 < lines.len() <= size ==> group_lines(lines, size) == seq![lines],
        lines.len() > size ==> group_lines(lines, size).len() >= 2,
    decreases lines.len(),
{
    if lines.len() > size {
        let g = group_lines(lines, size);
        let tail = lines.skip(size as int);
        let rest = group_lines(tail, size);
        lemma_group_sizes(tail, size);
        assert(tail.len() > 0);
        assert(rest.len() >= 1);
        assert(g.drop_first() =~= rest);
        assert forall|k: int| 0 <= k < g.len() - 1 implies #[trigger] g[k].len() == size by {
            if k > 0 {
                assert(g[k] == rest[k - 1]);
            }
        }
    }
}

/// Joining the chunk contents with `'\n'` gives back the lines of the
/// document joined with `'\n'`: chunking drops, adds and reorders nothing.
pub proof fn lemma_chunks_rejoin(markdown: Seq<char>, size: nat)
    requires
        size > 0,
    ensures
        join(chunk_contents(markdown, size), newline()) == join(lines_of(markdown), newline()),
{
    if markdown.len() == 0 {
        assert(lines_of(markdown) =~= Seq::<Seq<char>>::empty());
    } else {
        lemma_group_rejoin(lines_of(markdown), size);
    }
}

/// Joining the chunk contents with `'\n'` gives back the document itself
/// when it has no carriage returns and does not end with a line break.
pub proof fn lemma_chunks_rebuild_document(markdown: Seq<char>, size: nat)
    requires
        size > 0,
        forall|j: int| 0 <= j < markdown.len() ==> markdown[j] != '\r',
        markdown.len() > 0 ==> markdown.last() != '\n',
    ensures
        join(chunk_contents(markdown, size), newline()) == markdown,
{
    lemma_chunks_rejoin(markdown, size);
    crate::text::lemma_lines_rejoin(markdown);
}

proof fn lemma_group_rejoin(lines: Seq<Seq<char>>, size: nat)
    requires
        size > 0,
        lines.len() > 0,
    ensures
        join(group_lines(lines, size).map_values(|g: Seq<Seq<char>>| join(g, newline())), newline())
            == join(lines, newline()),
    decreases lines.len(),
{
    let f = |g: Seq<Seq<char>>| join(g, newline());
    let gs = group_lines(lines, size);
    if lines.len() <= size {
        assert(gs.map_values(f) =~= seq![join(lines, newline())]);
    } else {
        let head = lines.take(size as int);
        let tail = lines.skip(size as int);
        let rest = group_lines(tail, size);
        lemma_group_rejoin(tail, size);
        lemma_group_lines(tail, size);
        assert(rest.len() > 0) by {
            assert(tail.len() > 0);
        }
        assert(gs.map_values(f) =~= seq![join(head, newline())] + rest.map_values(f));
        crate::text::lemma_join_append(seq![join(head, newline())], rest.map_values(f), newline());
        crate::text::lemma_join_append(head, tail, newline());
        assert(head + tail =~= lines);
    }
}

fn empty_document_chunks() -> (r: Vec<Chunk>)
    ensures
        r.len() == 1,
        r[0].content@ == Seq::<char>::empty(),
        r[0].index == 0,
{
    let mut r: Vec<Chunk> = Vec::new();
    r.push(Chunk { content: String::new(), index: 0 });
    r
}

/// Split markdown into line-based chunks for parallel processing.
///
/// An empty document gives one empty chunk with index 0.  Otherwise the
/// lines of the document are taken `chunk_size` at a time; each chunk holds
/// its lines joined by `'\n'`, and the `k`-th chunk has index `k`.
pub fn chunk_by_lines(markdown: &str, chunk_size: usize) -> (r: Vec<Chunk>)
    requires
        markdown@.len() > 0 ==> chunk_size > 0,
    ensures
        r.len() == chunk_contents(markdown@, chunk_size as nat).len(),
        forall|k: int|
            0 <= k < r.len() ==> (#[trigger] r[k]).content@ == chunk_contents(
                markdown@,
                chunk_size as nat,
            )[k] && r[k].index == k,
{
    if markdown.is_empty() {
        let r = empty_document_chunks();
        assert(chunk_contents(markdown@, chunk_size as nat) =~= seq![Seq::<char>::empty()]);
        return r;
    }
    let chars = str_to_chars(markdown);
    let lines = split_lines(&chars);
    let total_lines = lines.len();
    let ghost lv = lines_view(lines@);
    let ghost groups = group_lines(lv, chunk_size as nat);
    let ghost contents = chunk_contents(markdown@, chunk_size as nat);
    if total_lines == 0 {
        proof {
            lemma_lines_nonempty(markdown@);
        }
        return empty_document_chunks();
    }
    let mut chunks: Vec<Chunk> = Vec::new();
    let mut chunk_index: usize = 0;
    let mut start: usize = 0;
    assert(lv.skip(0) =~= lv);
    while start < total_lines
        invariant
            chunk_size > 0,
            total_lines == lines.len(),
            lv == lines_view(lines@),
            lv == lines_of(markdown@),
            markdown@.len() > 0,
            groups == group_lines(lv, chunk_size as nat),
            contents == groups.map_values(|g: Seq<Seq<char>>| join(g, newline())),
            start <= total_lines,
            chunk_index == chunks.len(),
            chunk_index <= groups.len(),
            chunk_index <= start,
            groups.skip(chunk_index as int) == group_lines(lv.skip(start as int), chunk_size as nat),
            forall|k: int|
                0 <= k < chunks.len() ==> (#[trigger] chunks[k]).content@ == contents[k]
                    && chunks[k].index == k,
        decreases total_lines - start,
    {
        let end = if total_lines - start > chunk_size {
            start + chunk_size
        } else {
            total_lines
        };
        let joined = join_lines(&lines, start, end, "\n");
        let content = chars_to_string(&joined);
        let ghost rest = lv.skip(start as int);
        proof {
            reveal_strlit("\n");
            assert("\n"@ =~= newline());
            assert(lv.subrange(start as int, end as int) =~= rest.take((end - start) as int));
            assert(rest.len() > 0);
            assert(group_lines(rest, chunk_size as nat).len() > 0);
            assert(groups.skip(chunk_index as int)[0] == groups[chunk_index as int]);
            if end == total_lines {
                assert(rest.take((end - start) as int) =~= rest);
            } else {
                assert(rest.skip(chunk_size as int) =~= lv.skip(end as int));
                assert(groups.skip(chunk_index as int).drop_first() =~= groups.skip(chunk_index + 1));
            }
        }
        chunks.push(Chunk { content, index: chunk_index });
        chunk_index += 1;
        start = end;
    }
    proof {
        assert(lv.skip(start as int).len() == 0);
        assert(groups.skip(chunk_index as int).len() == 0);
    }
    chunks
}

} // verus!
