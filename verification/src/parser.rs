//! Block markdown: headings, rules, code blocks, tables, block quotes,
//! lists and paragraphs, read line by line from a chunk.
use vstd::prelude::*;
use crate::chunker::Chunk;
use crate::inline::{escape_html, escaped, inline_html, parse_inline};
use crate::line_patterns::{
    get_indent_level, heading_of, indent_of, is_rule_line, match_heading, match_rule_line,
    match_task, task_of,
};
use crate::list::{list_html, parse_list};
use crate::text::{lemma_prefix_concat, lemma_prefix_trans};
use crate::text::{
    chars_to_string, contains, contains_char, contains_str, equals_str, has_prefix, index_of,
    is_ascii_digit, is_digit, join, join_lines, lines_of, lines_view, push_all, push_str,
    slice_of, split_lines, split_on, starts_with, str_to_chars, trim, trim_chars, trim_start,
    trim_start_chars, trim_end, lemma_index_of_at, lemma_trim_end_first,
};

verus! {

/// Represents a parsed chunk with its HTML output and original index.
#[derive(Clone, Debug)]
pub struct ParsedChunk {
    pub html: String,
    pub index: usize,
}

// ---------------------------------------------------------------------
// Tables
// ---------------------------------------------------------------------

/// One table cell: nothing for an empty cell, otherwise its inline HTML in
/// `<th>` (header) or `<td>` tags.
pub open spec fn cell_html(t: Seq<char>, header: bool) -> Seq<char> {
    if t.len() == 0 {
        seq![]
    } else if header {
        "<th>"@ + inline_html(t) + "</th>"@
    } else {
        "<td>"@ + inline_html(t) + "</td>"@
    }
}

/// The cells of the pieces of a row, each piece trimmed.
pub open spec fn cells_html(pieces: Seq<Seq<char>>, header: bool) -> Seq<char>
    decreases pieces.len(),
{
    if pieces.len() == 0 {
        seq![]
    } else {
        cell_html(trim(pieces[0]), header) + cells_html(pieces.drop_first(), header)
    }
}

/// A table row: the non-empty cells between `|` separators.
pub open spec fn row_html(line: Seq<char>, header: bool) -> Seq<char> {
    "<tr>"@ + cells_html(split_on(line, '|'), header) + "</tr>"@
}

/// Body rows from line `k` on, appended to `acc`: a row for each line
/// that holds a `|` and is not a rule, up to a blank line, a heading, a
/// code fence or the end.  Gives the rows and the first line after them.
pub open spec fn table_rows(lines: Seq<Seq<char>>, k: int, acc: Seq<char>) -> (Seq<char>, int)
    decreases lines.len() - k,
{
    if k < 0 || k >= lines.len() {
        (acc, k)
    } else {
        let line = trim(lines[k]);
        if line.len() == 0 || heading_of(line) is Some || has_prefix(line, "```"@) {
            (acc, k)
        } else if !is_rule_line(line) && index_of(line, '|') < line.len() {
            table_rows(lines, k + 1, acc + row_html(line, false))
        } else {
            table_rows(lines, k + 1, acc)
        }
    }
}

/// The table that starts at line `start`: a header row, an optional
/// separator line of dashes, and body rows.
pub open spec fn table_html(lines: Seq<Seq<char>>, start: int) -> (Seq<char>, int) {
    let head = if start < lines.len() {
        row_html(lines[start], true)
    } else {
        seq![]
    };
    let k = if start < lines.len() {
        start + 1
    } else {
        start
    };
    let k2 = if k < lines.len() && is_rule_line(lines[k]) {
        k + 1
    } else {
        k
    };
    table_rows(lines, k2, "<table><thead>"@ + head + "</thead><tbody>"@)
}

/// The table HTML, closed.
pub open spec fn table_block(lines: Seq<Seq<char>>, start: int) -> (Seq<char>, int) {
    (table_html(lines, start).0 + "</tbody></table>"@, table_html(lines, start).1)
}

/// Parse a table row.
pub fn parse_table_row(line: &Vec<char>, is_header: bool) -> (r: Vec<char>)
    ensures
        r@ == row_html(line@, is_header),
{
    let mut out: Vec<char> = Vec::new();
    push_str(&mut out, "<tr>");
    let ghost start = out@;
    assert(start =~= "<tr>"@);
    let mut seg: usize = 0;
    let mut i: usize = 0;
    assert(line@.skip(0) =~= line@);
    while i < line.len()
        invariant
            seg <= i <= line.len(),
            forall|j: int| seg <= j < i ==> line@[j] != '|',
            start + cells_html(split_on(line@, '|'), is_header) == out@ + cells_html(
                split_on(line@.skip(seg as int), '|'),
                is_header,
            ),
        decreases line.len() - i,
    {
        if line[i] == '|' {
            let ghost rest = line@.skip(seg as int);
            proof {
                lemma_index_of_at(rest, '|', i - seg);
                assert(rest.take(i - seg) =~= line@.subrange(seg as int, i as int));
                assert(rest.skip(i - seg + 1) =~= line@.skip(i + 1));
                let pieces = split_on(rest, '|');
                assert(pieces.drop_first() == split_on(line@.skip(i + 1), '|'));
            }
            let piece = slice_of(line, seg, i);
            write_cell(&mut out, &piece, is_header);
            seg = i + 1;
        }
        i += 1;
    }
    let ghost rest = line@.skip(seg as int);
    proof {
        lemma_index_of_at(rest, '|', rest.len() as int);
        assert(split_on(rest, '|') =~= seq![rest]);
        assert(split_on(rest, '|').drop_first() =~= Seq::<Seq<char>>::empty());
        assert(rest =~= line@.subrange(seg as int, line.len() as int));
    }
    let piece = slice_of(line, seg, line.len());
    write_cell(&mut out, &piece, is_header);
    proof {
        let pieces = split_on(rest, '|');
        assert(cells_html(pieces.drop_first(), is_header) =~= Seq::<char>::empty());
        assert(cells_html(pieces, is_header) == cell_html(trim(rest), is_header));
    }
    push_str(&mut out, "</tr>");
    assert(out@ =~= "<tr>"@ + cells_html(split_on(line@, '|'), is_header) + "</tr>"@);
    out
}

fn write_cell(out: &mut Vec<char>, piece: &Vec<char>, header: bool)
    ensures
        final(out)@ == old(out)@ + cell_html(trim(piece@), header),
{
    let cell = trim_chars(piece);
    if cell.len() > 0 {
        let body = parse_inline(&cell);
        if header {
            push_str(out, "<th>");
            push_all(out, &body);
            push_str(out, "</th>");
        } else {
            push_str(out, "<td>");
            push_all(out, &body);
            push_str(out, "</td>");
        }
    } else {
        assert(cell_html(cell@, header) =~= Seq::<char>::empty());
    }
}

/// A row read cell by cell: a first cell `x` (up to the first `|`) with
/// text gives `<td>` (`<th>` in the header) holding the inline HTML of the
/// trimmed `x`, ahead of the cells of the rest of the row; a blank first
/// cell gives nothing.
pub proof fn lemma_row_first_cell(x: Seq<char>, r: Seq<char>, header: bool)
    requires
        index_of(x, '|') == x.len(),
    ensures
        trim(x).len() > 0 ==> row_html(x + seq!['|'] + r, header) == "<tr>"@ + (if header {
            "<th>"@
        } else {
            "<td>"@
        }) + inline_html(trim(x)) + (if header {
            "</th>"@
        } else {
            "</td>"@
        }) + row_html(r, header).skip(4),
        trim(x).len() == 0 ==> row_html(x + seq!['|'] + r, header) == row_html(r, header),
{
    reveal_strlit("<tr>");
    let line = x + seq!['|'] + r;
    assert forall|j: int| 0 <= j < x.len() implies line[j] != '|' by {
        crate::text::lemma_index_of(x, '|');
    }
    lemma_index_of_at(line, '|', x.len() as int);
    assert(line.take(x.len() as int) =~= x);
    assert(line.skip(x.len() as int + 1) =~= r);
    let pieces = split_on(line, '|');
    assert(pieces == seq![x] + split_on(r, '|'));
    assert(pieces.drop_first() =~= split_on(r, '|'));
    assert(pieces[0] == x);
    assert(cells_html(pieces, header) == cell_html(trim(x), header) + cells_html(split_on(r, '|'), header));
    assert(row_html(r, header).skip(4) =~= cells_html(split_on(r, '|'), header) + "</tr>"@);
    if trim(x).len() == 0 {
        assert(cell_html(trim(x), header) =~= seq![]);
        assert(row_html(line, header) =~= row_html(r, header));
    } else {
        assert(row_html(line, header) =~= "<tr>"@ + cell_html(trim(x), header) + row_html(r, header).skip(4));
    }
}

/// A row holding one cell, `|x|`, is a single `<td>` (`<th>` in the
/// header) with the inline HTML of the trimmed text `x`.
pub proof fn lemma_single_cell_row(x: Seq<char>, header: bool)
    requires
        index_of(x, '|') == x.len(),
        trim(x).len() > 0,
    ensures
        row_html(seq!['|'] + x + seq!['|'], header) == "<tr>"@ + (if header {
            "<th>"@
        } else {
            "<td>"@
        }) + inline_html(trim(x)) + (if header {
            "</th>"@
        } else {
            "</td>"@
        }) + "</tr>"@,
{
    let line = seq!['|'] + x + seq!['|'];
    let empty = Seq::<char>::empty();
    lemma_index_of_at(line, '|', 0);
    assert(line.take(0) =~= empty);
    let rest = line.skip(1);
    assert(rest =~= x + seq!['|']);
    assert forall|j: int| 0 <= j < x.len() implies rest[j] != '|' by {
        crate::text::lemma_index_of(x, '|');
        assert(rest[j] == x[j]);
    }
    lemma_index_of_at(rest, '|', x.len() as int);
    assert(rest.take(x.len() as int) =~= x);
    assert(rest.skip(x.len() as int + 1) =~= empty);
    assert(split_on(empty, '|') == seq![empty]);
    assert(split_on(rest, '|') == seq![x] + seq![empty]);
    assert(split_on(line, '|') == seq![empty] + (seq![x] + seq![empty]));
    let pieces = split_on(line, '|');
    assert(pieces =~= seq![empty, x, empty]);
    assert(trim_start(empty) == empty);
    assert(trim(empty) == empty);
    assert(pieces.drop_first() =~= seq![x, empty]);
    assert(seq![x, empty].drop_first() =~= seq![empty]);
    assert(seq![empty].drop_first() =~= Seq::<Seq<char>>::empty());
    assert(seq![empty][0] == empty);
    assert(cell_html(empty, header) =~= empty);
    assert(cells_html(Seq::<Seq<char>>::empty(), header) =~= empty);
    assert(cells_html(seq![empty], header) =~= empty);
    assert(cells_html(seq![x, empty], header) =~= cell_html(trim(x), header));
    assert(cells_html(pieces, header) =~= cell_html(trim(x), header));
}

/// Parse a table: the HTML and the first line after it.  Past the end of
/// the lines the table is empty and ends where it starts.
pub fn parse_table(lines: &Vec<Vec<char>>, start: usize) -> (r: (Vec<char>, usize))
    ensures
        (r.0@, r.1 as int) == table_block(lines_view(lines@), start as int),
        start <= r.1,
        start < lines.len() ==> start < r.1 <= lines.len(),
        start >= lines.len() ==> r.1 == start,
{
    let ghost lv = lines_view(lines@);
    let mut html: Vec<char> = Vec::new();
    push_str(&mut html, "<table><thead>");
    if start >= lines.len() {
        push_str(&mut html, "</thead><tbody>");
        push_str(&mut html, "</tbody></table>");
        assert(html@ =~= "<table><thead>"@ + Seq::<char>::empty() + "</thead><tbody>"@ + "</tbody></table>"@);
        return (html, start);
    }
    let mut i = start;
    if i < lines.len() {
        assert(lines[i as int]@ == lv[i as int]);
        push_all(&mut html, &parse_table_row(&lines[i], true));
        i += 1;
    }
    push_str(&mut html, "</thead><tbody>");
    if i < lines.len() {
        assert(lines[i as int]@ == lv[i as int]);
        if match_rule_line(&lines[i]) {
            i += 1;
        }
    }
    let ghost target = table_html(lv, start as int);
    assert(html@ =~= "<table><thead>"@ + (if start < lv.len() { row_html(lv[start as int], true) } else { seq![] }) + "</thead><tbody>"@);
    assert(target == table_rows(lv, i as int, html@));
    let mut stop = false;
    while !stop && i < lines.len()
        invariant
            start < i <= lines.len(),
            lv == lines_view(lines@),
            target == table_rows(lv, i as int, html@),
            stop ==> target == (html@, i as int),
        decreases lines.len() - i, if stop { 0int } else { 1int },
    {
        assert(lines[i as int]@ == lv[i as int]);
        let line = trim_chars(&lines[i]);
        proof {
            reveal_strlit("```");
        }
        if line.len() == 0 || match_heading(&line).is_some() || starts_with(&line, "```") {
            stop = true;
        } else {
            if !match_rule_line(&line) && contains_char(&line, '|') {
                push_all(&mut html, &parse_table_row(&line, false));
            }
            i += 1;
        }
    }
    push_str(&mut html, "</tbody></table>");
    (html, i)
}

// ---------------------------------------------------------------------
// Block quotes
// ---------------------------------------------------------------------

/// Block-quote lines from `k` on, in state (`in_quote`, `html`): each line
/// starting with `>` (after white space) becomes a paragraph, lines after
/// the first separated by `<br>`; blank lines inside the quote are
/// skipped.  Gives the HTML and the first line after the quote.
#[verifier::opaque]
pub open spec fn quote_loop(lines: Seq<Seq<char>>, k: int, in_quote: bool, html: Seq<char>) -> (Seq<char>, int)
    decreases lines.len() - k,
{
    if k < 0 || k >= lines.len() {
        (html, k)
    } else {
        let line = lines[k];
        let ts = trim_start(line);
        let h = if in_quote {
            html + "<br>"@
        } else {
            html
        };
        if has_prefix(ts, "> "@) {
            quote_loop(lines, k + 1, true, h + "<p>"@ + inline_html(ts.skip(2)) + "</p>"@)
        } else if ts.len() > 0 && ts[0] == '>' {
            let text = trim_start(ts.skip(1));
            quote_loop(
                lines,
                k + 1,
                true,
                if text.len() > 0 {
                    h + "<p>"@ + inline_html(text) + "</p>"@
                } else {
                    h
                },
            )
        } else if trim(line).len() == 0 && in_quote {
            quote_loop(lines, k + 1, in_quote, html)
        } else {
            (html, k)
        }
    }
}

/// The block quote that starts at line `start`.
pub open spec fn blockquote_block(lines: Seq<Seq<char>>, start: int) -> (Seq<char>, int) {
    let (h, k) = quote_loop(lines, start, false, "<blockquote>"@);
    (h + "</blockquote>"@, k)
}

/// What a block-quote reading has written stays at the front of its result,
/// and the reading never moves back.
pub proof fn lemma_quote_loop_prefix(lines: Seq<Seq<char>>, k: int, in_quote: bool, html: Seq<char>)
    requires
        0 <= k,
    ensures
        has_prefix(quote_loop(lines, k, in_quote, html).0, html),
        quote_loop(lines, k, in_quote, html).1 >= k,
    decreases lines.len() - k,
{
    reveal_with_fuel(quote_loop, 1);
    let r = quote_loop(lines, k, in_quote, html);
    lemma_prefix_concat(html, seq![]);
    assert(html + seq![] =~= html);
    if k < lines.len() {
        let line = lines[k];
        let ts = trim_start(line);
        let h = if in_quote {
            html + "<br>"@
        } else {
            html
        };
        lemma_prefix_concat(html, "<br>"@);
        assert(has_prefix(h, html));
        if has_prefix(ts, "> "@) {
            let h2 = h + "<p>"@ + inline_html(ts.skip(2)) + "</p>"@;
            lemma_quote_loop_prefix(lines, k + 1, true, h2);
            lemma_prefix_concat(h, "<p>"@ + inline_html(ts.skip(2)) + "</p>"@);
            assert(h2 =~= h + ("<p>"@ + inline_html(ts.skip(2)) + "</p>"@));
            lemma_prefix_trans(r.0, h2, h);
            lemma_prefix_trans(r.0, h, html);
        } else if ts.len() > 0 && ts[0] == '>' {
            let text = trim_start(ts.skip(1));
            let h2 = if text.len() > 0 {
                h + "<p>"@ + inline_html(text) + "</p>"@
            } else {
                h
            };
            lemma_quote_loop_prefix(lines, k + 1, true, h2);
            lemma_prefix_concat(h, "<p>"@ + inline_html(text) + "</p>"@);
            assert(h + "<p>"@ + inline_html(text) + "</p>"@ =~= h + ("<p>"@ + inline_html(text)
                + "</p>"@));
            lemma_prefix_concat(h, seq![]);
            assert(h + seq![] =~= h);
            assert(has_prefix(h2, h));
            lemma_prefix_trans(r.0, h2, h);
            lemma_prefix_trans(r.0, h, html);
        } else if trim(line).len() == 0 && in_quote {
            lemma_quote_loop_prefix(lines, k + 1, in_quote, html);
        }
    }
}

/// A line that starts with `> ` (after white space) opens a block quote
/// whose first paragraph holds the inline HTML of the rest of the line, the
/// same inline rendering a paragraph gets; the quote reads on past the line.
pub proof fn lemma_quote_line_paragraph(lines: Seq<Seq<char>>, i: int)
    requires
        0 <= i < lines.len(),
        has_prefix(trim_start(lines[i]), "> "@),
    ensures
        blockquote_block(lines, i).1 > i,
        has_prefix(
            blockquote_block(lines, i).0,
            "<blockquote>"@ + "<p>"@ + inline_html(trim_start(lines[i]).skip(2)) + "</p>"@,
        ),
{
    let ts = trim_start(lines[i]);
    let h2 = "<blockquote>"@ + "<p>"@ + inline_html(ts.skip(2)) + "</p>"@;
    assert(quote_loop(lines, i, false, "<blockquote>"@) == quote_loop(lines, i + 1, true, h2)) by {
        reveal_with_fuel(quote_loop, 1);
    }
    lemma_quote_loop_prefix(lines, i + 1, true, h2);
    let q = quote_loop(lines, i + 1, true, h2);
    lemma_prefix_concat(q.0, "</blockquote>"@);
    lemma_prefix_trans(q.0 + "</blockquote>"@, q.0, h2);
}

/// A document of one quote line `> x` is the block quote of one paragraph
/// holding the inline HTML of `x`.
pub proof fn lemma_single_quote_line(line: Seq<char>)
    requires
        has_prefix(trim_start(line), "> "@),
    ensures
        blockquote_block(seq![line], 0) == (
            "<blockquote>"@ + "<p>"@ + inline_html(trim_start(line).skip(2)) + "</p>"@
                + "</blockquote>"@,
            1int,
        ),
{
    let lines = seq![line];
    let h2 = "<blockquote>"@ + "<p>"@ + inline_html(trim_start(line).skip(2)) + "</p>"@;
    assert(quote_loop(lines, 0, false, "<blockquote>"@) == quote_loop(lines, 1, true, h2)) by {
        reveal_with_fuel(quote_loop, 1);
    }
    assert(quote_loop(lines, 1, true, h2) == (h2, 1int)) by {
        reveal_with_fuel(quote_loop, 1);
    }
}

/// The paragraph of a quote line `> x`: the inline HTML of `x`.
pub open spec fn quote_paragraph(line: Seq<char>) -> Seq<char> {
    "<p>"@ + inline_html(trim_start(line).skip(2)) + "</p>"@
}

proof fn lemma_quote_run(lines: Seq<Seq<char>>, k: int)
    requires
        1 <= k <= lines.len(),
        forall|m: int| 0 <= m < lines.len() ==> has_prefix(#[trigger] trim_start(lines[m]), "> "@),
    ensures
        quote_loop(lines, k, true, "<blockquote>"@ + join(lines.take(k).map_values(|l| quote_paragraph(l)), "<br>"@))
            == ("<blockquote>"@ + join(lines.map_values(|l| quote_paragraph(l)), "<br>"@), lines.len() as int),
    decreases lines.len() - k,
{
    let f = |l: Seq<char>| quote_paragraph(l);
    reveal_with_fuel(quote_loop, 1);
    if k == lines.len() {
        assert(lines.take(k) =~= lines);
    } else {
        let a = lines.take(k).map_values(f);
        assert(lines.take(k + 1).map_values(f) =~= a.push(quote_paragraph(lines[k])));
        crate::text::lemma_join_push(a, quote_paragraph(lines[k]), "<br>"@);
        assert(has_prefix(trim_start(lines[k]), "> "@));
        assert("<blockquote>"@ + join(a, "<br>"@) + "<br>"@ + "<p>"@ + inline_html(trim_start(lines[k]).skip(2)) + "</p>"@
            =~= "<blockquote>"@ + join(lines.take(k + 1).map_values(f), "<br>"@));
        lemma_quote_run(lines, k + 1);
    }
}

/// A run of quote lines `> x1`, ..., `> xn` is one block quote holding one
/// paragraph per line, each the inline HTML of its text, separated by
/// `<br>`; reading goes on after the last line.
pub proof fn lemma_quote_lines(lines: Seq<Seq<char>>)
    requires
        lines.len() > 0,
        forall|m: int| 0 <= m < lines.len() ==> has_prefix(#[trigger] trim_start(lines[m]), "> "@),
    ensures
        blockquote_block(lines, 0) == (
            "<blockquote>"@ + join(lines.map_values(|l| quote_paragraph(l)), "<br>"@) + "</blockquote>"@,
            lines.len() as int,
        ),
{
    let f = |l: Seq<char>| quote_paragraph(l);
    assert(has_prefix(trim_start(lines[0]), "> "@));
    assert(quote_loop(lines, 0, false, "<blockquote>"@) == quote_loop(
        lines,
        1,
        true,
        "<blockquote>"@ + "<p>"@ + inline_html(trim_start(lines[0]).skip(2)) + "</p>"@,
    )) by {
        reveal_with_fuel(quote_loop, 1);
    }
    assert(lines.take(1).map_values(f) =~= seq![quote_paragraph(lines[0])]);
    assert("<blockquote>"@ + "<p>"@ + inline_html(trim_start(lines[0]).skip(2)) + "</p>"@
        =~= "<blockquote>"@ + join(lines.take(1).map_values(f), "<br>"@));
    lemma_quote_run(lines, 1);
}

/// Line `k` starts with `>` after its leading white space.
pub open spec fn quote_line(lines: Seq<Seq<char>>, k: int) -> bool {
    trim_start(lines[k]).len() > 0 && trim_start(lines[k])[0] == '>'
}

/// Parse a blockquote: the HTML and the first line after it.  Past the end
/// of the lines the quote is empty and ends where it starts.
pub fn parse_blockquote(lines: &Vec<Vec<char>>, start: usize) -> (r: (Vec<char>, usize))
    ensures
        (r.0@, r.1 as int) == blockquote_block(lines_view(lines@), start as int),
        start <= r.1,
        start <= lines.len() ==> r.1 <= lines.len(),
        start >= lines.len() ==> r.1 == start,
        start < lines.len() && quote_line(lines_view(lines@), start as int) ==> start < r.1,
{
    let ghost lv = lines_view(lines@);
    let mut html: Vec<char> = Vec::new();
    push_str(&mut html, "<blockquote>");
    assert(html@ =~= "<blockquote>"@);
    let ghost target = quote_loop(lv, start as int, false, html@);
    if start >= lines.len() {
        assert(target == (html@, start as int)) by {
            reveal_with_fuel(quote_loop, 1);
        }
        push_str(&mut html, "</blockquote>");
        return (html, start);
    }
    let mut i = start;
    let mut in_quote = false;
    let mut stop = false;
    while !stop && i < lines.len()
        invariant
            start <= i <= lines.len(),
            lv == lines_view(lines@),
            target == quote_loop(lv, i as int, in_quote, html@),
            stop ==> target == (html@, i as int),
            stop && i == start ==> !quote_line(lv, start as int),
        decreases lines.len() - i, if stop { 0int } else { 1int },
    {
        let line = &lines[i];
        assert(line@ == lv[i as int]);
        let ghost html0 = html@;
        let ghost q0 = in_quote;
        let ghost i0 = i as int;
        let ts = trim_start_chars(line);
        proof {
            reveal_strlit("> ");
            reveal_strlit("<br>");
        }
        if starts_with(&ts, "> ") {
            if in_quote {
                push_str(&mut html, "<br>");
            }
            let text = slice_of(&ts, 2, ts.len());
            push_str(&mut html, "<p>");
            push_all(&mut html, &parse_inline(&text));
            push_str(&mut html, "</p>");
            in_quote = true;
            i += 1;
            assert(quote_loop(lv, i0, q0, html0) == quote_loop(lv, i as int, in_quote, html@)) by {
                reveal_with_fuel(quote_loop, 1);
                assert(text@ =~= ts@.skip(2));
            }
        } else if ts.len() > 0 && ts[0] == '>' {
            if in_quote {
                push_str(&mut html, "<br>");
            }
            let text = trim_start_chars(&slice_of(&ts, 1, ts.len()));
            if text.len() > 0 {
                push_str(&mut html, "<p>");
                push_all(&mut html, &parse_inline(&text));
                push_str(&mut html, "</p>");
            }
            in_quote = true;
            i += 1;
            assert(quote_loop(lv, i0, q0, html0) == quote_loop(lv, i as int, in_quote, html@)) by {
                reveal_with_fuel(quote_loop, 1);
                assert(ts@.subrange(1, ts@.len() as int) =~= ts@.skip(1));
            }
        } else if trim_chars(line).len() == 0 && in_quote {
            i += 1;
            assert(quote_loop(lv, i0, q0, html0) == quote_loop(lv, i as int, in_quote, html@)) by {
                reveal_with_fuel(quote_loop, 1);
            }
        } else {
            assert(quote_loop(lv, i0, q0, html0) == (html0, i0)) by {
                reveal_with_fuel(quote_loop, 1);
            }
            stop = true;
        }
    }
    proof {
        if !stop {
            reveal_with_fuel(quote_loop, 1);
        }
    }
    push_str(&mut html, "</blockquote>");
    (html, i)
}

// ---------------------------------------------------------------------
// Code blocks
// ---------------------------------------------------------------------

/// The first line at or after `k` that is a closing fence (three
/// backticks after trimming), or the number of lines.
pub open spec fn fence_end(lines: Seq<Seq<char>>, k: int) -> int
    decreases lines.len() - k,
{
    if k >= lines.len() {
        lines.len() as int
    } else if 0 <= k && trim(lines[k]) == "```"@ {
        k
    } else {
        fence_end(lines, k + 1)
    }
}

/// The language named after the opening fence, if any.
pub open spec fn code_lang(first: Seq<char>) -> Option<Seq<char>> {
    if has_prefix(first, "```"@) {
        let lp = trim(first.skip(3));
        if lp.len() == 0 {
            None
        } else {
            Some(lp)
        }
    } else {
        None
    }
}

/// The fenced code block that starts at line `start`: its lines up to the
/// closing fence (or the end), joined by `'\n'` and escaped, in
/// `<pre><code>`, with a `language-` class when a language is named.
pub open spec fn code_block(lines: Seq<Seq<char>>, start: int) -> (Seq<char>, int) {
    let e = fence_end(lines, start + 1);
    let code = join(lines.subrange(start + 1, e), "\n"@);
    let attr = match code_lang(trim(lines[start])) {
        Some(l) => " class=\"language-"@ + escaped(l) + "\""@,
        None => seq![],
    };
    (
        "<pre><code"@ + attr + ">"@ + escaped(code) + "</code></pre>"@,
        if e < lines.len() {
            e + 1
        } else {
            e
        },
    )
}

proof fn lemma_fence_end_bound(lines: Seq<Seq<char>>, k: int)
    requires
        0 <= k,
    ensures
        k <= fence_end(lines, k) <= lines.len() || (k > lines.len() && fence_end(lines, k)
            == lines.len()),
    decreases lines.len() - k,
{
    if k < lines.len() && trim(lines[k]) != "```"@ {
        lemma_fence_end_bound(lines, k + 1);
    }
}

/// Parse a code block: the HTML and the first line after it.
pub fn parse_code_block(lines: &Vec<Vec<char>>, start: usize) -> (r: (Vec<char>, usize))
    requires
        start < lines.len(),
    ensures
        (r.0@, r.1 as int) == code_block(lines_view(lines@), start as int),
        start < r.1 <= lines.len(),
{
    let ghost lv = lines_view(lines@);
    assert(lines[start as int]@ == lv[start as int]);
    let first_line = trim_chars(&lines[start]);
    proof {
        reveal_strlit("```");
    }
    let lang = if starts_with(&first_line, "```") {
        let lang_part = trim_chars(&slice_of(&first_line, 3, first_line.len()));
        assert(first_line@.subrange(3, first_line@.len() as int) =~= first_line@.skip(3));
        if lang_part.len() == 0 {
            None
        } else {
            Some(lang_part)
        }
    } else {
        None
    };
    let mut e = start + 1;
    let mut found = false;
    while !found && e < lines.len()
        invariant
            start < e <= lines.len(),
            lv == lines_view(lines@),
            fence_end(lv, start + 1) == fence_end(lv, e as int),
            found ==> fence_end(lv, e as int) == e,
        decreases lines.len() - e, if found { 0int } else { 1int },
    {
        assert(lines[e as int]@ == lv[e as int]);
        if equals_str(&trim_chars(&lines[e]), "```") {
            found = true;
        } else {
            e += 1;
        }
    }
    let code = join_lines(lines, start + 1, e, "\n");
    let mut html: Vec<char> = Vec::new();
    push_str(&mut html, "<pre><code");
    match &lang {
        Some(l) => {
            push_str(&mut html, " class=\"language-");
            push_all(&mut html, &escape_html(l));
            push_str(&mut html, "\"");
        },
        None => {},
    }
    push_str(&mut html, ">");
    push_all(&mut html, &escape_html(&code));
    push_str(&mut html, "</code></pre>");
    let next = if e < lines.len() {
        e + 1
    } else {
        e
    };
    proof {
        let attr = match code_lang(trim(lv[start as int])) {
            Some(l) => " class=\"language-"@ + escaped(l) + "\""@,
            None => seq![],
        };
        assert(html@ =~= "<pre><code"@ + attr + ">"@ + escaped(code@) + "</code></pre>"@);
    }
    (html, next)
}

// ---------------------------------------------------------------------
// Paragraphs
// ---------------------------------------------------------------------

/// Line `j` (trimmed) starts another kind of block, which ends a paragraph.
pub open spec fn para_break(lines: Seq<Seq<char>>, j: int) -> bool {
    let cl = trim(lines[j]);
    ||| heading_of(cl) is Some
    ||| has_prefix(cl, "```"@)
    ||| (cl.len() > 0 && cl[0] == '>')
    ||| has_prefix(cl, "- "@)
    ||| has_prefix(cl, "* "@)
    ||| (cl.len() > 0 && is_digit(cl[0]) && contains(cl, ". "@))
    ||| is_rule_line(cl)
    ||| (index_of(cl, '|') < cl.len() && j + 1 < lines.len() && contains(trim(lines[j + 1]), "---"@))
}

/// The first line at or after `j` that ends a paragraph: a blank line, a
/// line starting another block, or the end.
pub open spec fn para_end(lines: Seq<Seq<char>>, j: int) -> int
    decreases lines.len() - j,
{
    if j < 0 || j >= lines.len() || trim(lines[j]).len() == 0 || para_break(lines, j) {
        j
    } else {
        para_end(lines, j + 1)
    }
}

/// A paragraph never takes in a heading line: reading a paragraph from any
/// line at or before a heading stops at the heading at the latest.
pub proof fn lemma_heading_ends_paragraph(lines: Seq<Seq<char>>, i: int, j: int)
    requires
        0 <= i <= j < lines.len(),
        heading_of(trim(lines[j])) is Some,
    ensures
        para_end(lines, i) <= j,
    decreases j - i,
{
    if i < j && !(trim(lines[i]).len() == 0 || para_break(lines, i)) {
        lemma_heading_ends_paragraph(lines, i + 1, j);
    }
}

/// Lines `i..j`, each trimmed.
pub open spec fn trimmed_lines(lines: Seq<Seq<char>>, i: int, j: int) -> Seq<Seq<char>> {
    Seq::new((j - i) as nat, |k: int| trim(lines[i + k]))
}

/// The paragraph of lines `i..j`: their trimmed text joined by spaces.
pub open spec fn paragraph_html(lines: Seq<Seq<char>>, i: int, j: int) -> Seq<char> {
    "<p>"@ + inline_html(join(trimmed_lines(lines, i, j), " "@)) + "</p>"@
}

fn ends_paragraph(lines: &Vec<Vec<char>>, j: usize, cl: &Vec<char>) -> (r: bool)
    requires
        j < lines.len(),
        cl@ == trim(lines_view(lines@)[j as int]),
    ensures
        r == para_break(lines_view(lines@), j as int),
{
    let ghost lv = lines_view(lines@);
    proof {
        reveal_strlit("```");
        reveal_strlit("- ");
        reveal_strlit("* ");
    }
    if match_heading(cl).is_some() || starts_with(cl, "```") || (cl.len() > 0 && cl[0] == '>')
        || starts_with(cl, "- ") || starts_with(cl, "* ") {
        return true;
    }
    if cl.len() > 0 && is_ascii_digit(cl[0]) && contains_str(cl, ". ") {
        return true;
    }
    if match_rule_line(cl) {
        return true;
    }
    if contains_char(cl, '|') && j + 1 < lines.len() {
        assert(lines[j + 1]@ == lv[j + 1]);
        return contains_str(&trim_chars(&lines[j + 1]), "---");
    }
    false
}

/// The paragraph from line `i`, which always holds line `i`: the HTML and
/// the first line after it.
fn parse_paragraph(lines: &Vec<Vec<char>>, i: usize) -> (r: (Vec<char>, usize))
    requires
        i < lines.len(),
    ensures
        r.1 as int == para_end(lines_view(lines@), i + 1),
        i < r.1 <= lines.len(),
        r.0@ == paragraph_html(lines_view(lines@), i as int, r.1 as int),
{
    let ghost lv = lines_view(lines@);
    let mut para_lines: Vec<Vec<char>> = Vec::new();
    assert(lines[i as int]@ == lv[i as int]);
    para_lines.push(trim_chars(&lines[i]));
    let mut j = i + 1;
    let mut stop = false;
    assert(lines_view(para_lines@) =~= trimmed_lines(lv, i as int, j as int));
    while !stop && j < lines.len()
        invariant
            i < j <= lines.len(),
            lv == lines_view(lines@),
            para_end(lv, i + 1) == para_end(lv, j as int),
            stop ==> para_end(lv, j as int) == j,
            lines_view(para_lines@) == trimmed_lines(lv, i as int, j as int),
        decreases lines.len() - j, if stop { 0int } else { 1int },
    {
        assert(lines[j as int]@ == lv[j as int]);
        let current_line = trim_chars(&lines[j]);
        if current_line.len() == 0 || ends_paragraph(lines, j, &current_line) {
            stop = true;
        } else {
            let ghost before = para_lines@;
            let ghost cl = current_line@;
            para_lines.push(current_line);
            j += 1;
            assert(lines_view(para_lines@) =~= lines_view(before).push(cl));
            assert(trimmed_lines(lv, i as int, j as int) =~= trimmed_lines(lv, i as int, j - 1).push(cl));
        }
    }
    let mut html: Vec<char> = Vec::new();
    let text = join_lines(&para_lines, 0, para_lines.len(), " ");
    push_str(&mut html, "<p>");
    push_all(&mut html, &parse_inline(&text));
    push_str(&mut html, "</p>");
    assert(lines_view(para_lines@).subrange(0, para_lines.len() as int) =~= trimmed_lines(
        lv,
        i as int,
        j as int,
    ));
    (html, j)
}

// ---------------------------------------------------------------------
// Chunks
// ---------------------------------------------------------------------

/// The digit of a heading level.
pub open spec fn level_digit(level: nat) -> char {
    if level == 1 {
        '1'
    } else if level == 2 {
        '2'
    } else if level == 3 {
        '3'
    } else if level == 4 {
        '4'
    } else if level == 5 {
        '5'
    } else {
        '6'
    }
}

/// A heading of the given level.
pub open spec fn heading_html(level: nat, text: Seq<char>) -> Seq<char> {
    "<h"@ + seq![level_digit(level)] + ">"@ + inline_html(text) + "</h"@ + seq![level_digit(level)]
        + ">"@
}

/// A trimmed line that starts a list.
pub open spec fn list_start(line: Seq<char>) -> bool {
    ||| has_prefix(line, "- "@)
    ||| has_prefix(line, "* "@)
    ||| (line.len() > 0 && is_digit(line[0]) && contains(line, ". "@))
    ||| task_of(line) is Some
}

/// A trimmed line that holds a `|` and is followed by a line holding `---`.
pub open spec fn table_start(lines: Seq<Seq<char>>, i: int, line: Seq<char>) -> bool {
    index_of(line, '|') < line.len() && i + 1 < lines.len() && contains(trim(lines[i + 1]), "---"@)
}

/// The block that starts at line `i`: its HTML and the first line after
/// it.  A blank line is an empty block.  A line that looks like the start of
/// a list (such as `1a. b`, with a digit and a `. `) but starts no list item
/// begins a paragraph.
pub open spec fn block_at(lines: Seq<Seq<char>>, i: int) -> (Seq<char>, int) {
    let line = trim(lines[i]);
    if line.len() == 0 {
        (seq![], i + 1)
    } else if has_prefix(line, "```"@) {
        code_block(lines, i)
    } else if is_rule_line(line) {
        ("<hr>"@, i + 1)
    } else if let Some((level, text)) = heading_of(line) {
        (heading_html(level, text), i + 1)
    } else if table_start(lines, i, line) {
        table_block(lines, i)
    } else if line[0] == '>' {
        blockquote_block(lines, i)
    } else if list_start(line) && list_html(lines, i, indent_of(lines[i]) as int).1 > i {
        list_html(lines, i, indent_of(lines[i]) as int)
    } else {
        (paragraph_html(lines, i, para_end(lines, i + 1)), para_end(lines, i + 1))
    }
}

/// A bullet line `- x` or `* x` (no task item, and no table starting
/// there) starts a list block: the block is the list read from that line,
/// which opens `<ul><li>` with the inline HTML of `x`.
pub proof fn lemma_bullet_line_block(lines: Seq<Seq<char>>, i: int)
    requires
        0 <= i < lines.len(),
        task_of(lines[i]) is None,
        has_prefix(trim(lines[i]), "- "@) || has_prefix(trim(lines[i]), "* "@),
        !table_start(lines, i, trim(lines[i])),
    ensures
        block_at(lines, i) == list_html(lines, i, indent_of(lines[i]) as int),
        has_prefix(block_at(lines, i).0, "<ul><li>"@ + inline_html(trim(lines[i]).skip(2))),
        block_at(lines, i).1 > i,
{
    reveal_strlit("```");
    reveal_strlit("- ");
    reveal_strlit("* ");
    let line = trim(lines[i]);
    crate::list::lemma_bullet_line_opens_unordered_list(lines, i);
    assert(line[0] == '-' || line[0] == '*') by {
        if has_prefix(line, "- "@) {
            assert(line.take(2)[0] == line[0]);
        } else {
            assert(line.take(2)[0] == line[0]);
        }
    }
    assert(line[1] == ' ') by {
        assert(line.take(2)[1] == line[1]);
    }
    if has_prefix(line, "```"@) {
        assert(line.take(3)[0] == line[0]);
    }
    assert(!is_rule_line(line));
    assert(heading_of(line) is None);
}

/// A line that starts with `> ` (after white space, and no table starting
/// there) starts a block quote: the block is the quote read from that line.
pub proof fn lemma_quote_line_block(lines: Seq<Seq<char>>, i: int)
    requires
        0 <= i < lines.len(),
        has_prefix(trim_start(lines[i]), "> "@),
        !table_start(lines, i, trim(lines[i])),
    ensures
        block_at(lines, i) == blockquote_block(lines, i),
{
    reveal_strlit("```");
    reveal_strlit("> ");
    let ts = trim_start(lines[i]);
    let line = trim(lines[i]);
    assert(ts[0] == '>') by {
        assert(ts.take(2)[0] == ts[0]);
    }
    crate::text::lemma_trim_end_nonempty(ts);
    lemma_trim_end_first(ts);
    assert(line[0] == '>');
    if has_prefix(line, "```"@) {
        assert(line.take(3)[0] == line[0]);
    }
    assert(!is_rule_line(line));
    assert(heading_of(line) is None);
}

/// Reading blocks from line `i` on, after `html`: the HTML of the chunk.
/// Every block moves past its first line (`parse_chunk` shows it), so the
/// `None` of a block that would not advance never arises.
pub open spec fn chunk_loop(lines: Seq<Seq<char>>, i: int, html: Seq<char>) -> Option<Seq<char>>
    decreases lines.len() - i,
{
    if i < 0 || i >= lines.len() {
        Some(html)
    } else {
        let (h, j) = block_at(lines, i);
        if j <= i || j > lines.len() {
            None
        } else {
            chunk_loop(lines, j, html + h)
        }
    }
}

/// A heading line is read as a heading of its level: `<hN>`, the inline
/// HTML of its text, `</hN>`, and reading goes on at the next line.
pub proof fn lemma_heading_line_block(lines: Seq<Seq<char>>, j: int, level: nat, text: Seq<char>)
    requires
        0 <= j < lines.len(),
        heading_of(trim(lines[j])) == Some((level, text)),
    ensures
        block_at(lines, j) == (
            "<h"@ + seq![level_digit(level)] + ">"@ + inline_html(text) + "</h"@ + seq![
                level_digit(level),
            ] + ">"@,
            j + 1,
        ),
{
    reveal_strlit("```");
    let line = trim(lines[j]);
    assert(line[0] == '#');
    if has_prefix(line, "```"@) {
        assert(line.take(3)[0] == line[0]);
    }
    assert(!is_rule_line(line));
}

/// The HTML of a chunk's content.
pub open spec fn chunk_html(content: Seq<char>) -> Option<Seq<char>> {
    chunk_loop(lines_of(content), 0, seq![])
}

fn heading_level_str(level: usize) -> (r: &'static str)
    requires
        1 <= level <= 6,
    ensures
        r@ == seq![level_digit(level as nat)],
{
    if level == 1 {
        proof { reveal_strlit("1"); }
        "1"
    } else if level == 2 {
        proof { reveal_strlit("2"); }
        "2"
    } else if level == 3 {
        proof { reveal_strlit("3"); }
        "3"
    } else if level == 4 {
        proof { reveal_strlit("4"); }
        "4"
    } else if level == 5 {
        proof { reveal_strlit("5"); }
        "5"
    } else {
        proof { reveal_strlit("6"); }
        "6"
    }
}

/// Whether a trimmed line starts a list.
fn starts_list(line: &Vec<char>) -> (r: bool)
    ensures
        r == list_start(line@),
{
    proof {
        reveal_strlit("- ");
        reveal_strlit("* ");
    }
    starts_with(line, "- ") || starts_with(line, "* ") || (line.len() > 0 && is_ascii_digit(line[0])
        && contains_str(line, ". ")) || match_task(line).is_some()
}

/// Reads the block that starts at line `i`: its HTML and the first line
/// after it.
fn parse_block(lines: &Vec<Vec<char>>, i: usize) -> (r: (Vec<char>, usize))
    requires
        i < lines.len(),
    ensures
        block_at(lines_view(lines@), i as int) == (r.0@, r.1 as int),
        i < r.1 <= lines.len(),
{
    let ghost lv = lines_view(lines@);
    assert(lines[i as int]@ == lv[i as int]);
    let line = trim_chars(&lines[i]);
    proof {
        reveal_strlit("```");
        reveal_strlit("<hr>");
    }
    if line.len() == 0 {
        return (Vec::new(), i + 1);
    }
    if starts_with(&line, "```") {
        return parse_code_block(lines, i);
    }
    if match_rule_line(&line) {
        let mut html: Vec<char> = Vec::new();
        push_str(&mut html, "<hr>");
        assert(html@ =~= "<hr>"@);
        return (html, i + 1);
    }
    if let Some((level, text)) = match_heading(&line) {
        let digit = heading_level_str(level);
        let mut html: Vec<char> = Vec::new();
        push_str(&mut html, "<h");
        push_str(&mut html, digit);
        push_str(&mut html, ">");
        push_all(&mut html, &parse_inline(&text));
        push_str(&mut html, "</h");
        push_str(&mut html, digit);
        push_str(&mut html, ">");
        assert(html@ =~= heading_html(level as nat, text@));
        return (html, i + 1);
    }
    let is_table = if contains_char(&line, '|') && i + 1 < lines.len() {
        assert(lines[i + 1]@ == lv[i + 1]);
        contains_str(&trim_chars(&lines[i + 1]), "---")
    } else {
        false
    };
    if is_table {
        return parse_table(lines, i);
    }
    if line[0] == '>' {
        assert(quote_line(lv, i as int)) by {
            assert(trim(lv[i as int]) == trim_end(trim_start(lv[i as int])));
            lemma_trim_end_first(trim_start(lv[i as int]));
        }
        return parse_blockquote(lines, i);
    }
    if starts_list(&line) {
        let base_indent = get_indent_level(&lines[i]);
        let (list_html, new_i) = parse_list(lines, i, base_indent);
        if new_i > i {
            return (list_html, new_i);
        }
    }
    parse_paragraph(lines, i)
}

/// Reads the blocks of `lines`.
fn parse_lines(lines: &Vec<Vec<char>>) -> (r: Vec<char>)
    ensures
        chunk_loop(lines_view(lines@), 0, seq![]) == Some(r@),
{
    let ghost lv = lines_view(lines@);
    let ghost target = chunk_loop(lv, 0, seq![]);
    let mut html: Vec<char> = Vec::new();
    let mut i: usize = 0;
    assert(html@ =~= Seq::<char>::empty());
    while i < lines.len()
        invariant
            i <= lines.len(),
            lv == lines_view(lines@),
            target == chunk_loop(lv, 0, seq![]),
            target == chunk_loop(lv, i as int, html@),
        decreases lines.len() - i,
    {
        let (block, new_i) = parse_block(lines, i);
        push_all(&mut html, &block);
        i = new_i;
    }
    html
}

/// Parse a single markdown chunk to HTML.
pub fn parse_chunk(chunk: Chunk) -> (r: ParsedChunk)
    ensures
        chunk_html(chunk.content@) == Some(r.html@),
        r.index == chunk.index,
{
    let content = str_to_chars(chunk.content.as_str());
    let lines = split_lines(&content);
    let html = parse_lines(&lines);
    ParsedChunk { html: chars_to_string(&html), index: chunk.index }
}

} // verus!
