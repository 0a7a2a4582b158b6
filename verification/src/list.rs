//! Lists: unordered (`- ` or `* `), ordered (`1. `) and task lists
//! (`- [x] `), nested by indentation.
//!
//! The list reader walks the lines with a small state: the HTML written so
//! far, the kind of list that is open, and the item being built (which is
//! written out when the next item, a blank line or the end comes).  A line
//! indented deeper than the list that starts a list item opens a nested
//! list inside the current item; a deeper line that is not an item continues
//! the current item's text.
//!
//! A deeper line such as `- ` (with its trailing space) reads as an item
//! after `trim_start` but not after `trim`: it is handed to a nested list,
//! which stops at once without reading it.  Such a line is read as text of
//! the current item instead, so that reading always moves on.
use vstd::prelude::*;
use crate::inline::{inline_html, parse_inline};
use crate::text::{is_ws, lemma_prefix_concat, lemma_prefix_trans, lemma_trim_end_first, trim_end};
use crate::inline::ws_run;
use crate::line_patterns::{
    get_indent_level, indent_of, list_item_of, match_ordered_marker, match_task, ordered_marker,
    parse_list_item, task_of,
};
use crate::text::{
    ends_with, find, has_prefix, lines_view, push_all, push_str, slice_of, starts_with, trim,
    trim_chars, trim_start, trim_start_chars,
};

verus! {

/// The kind of list that is open.
#[derive(Clone, Copy, PartialEq, Eq, Structural, Debug)]
pub enum ListKind {
    /// No list is open.
    Closed,
    /// A `<ul>` is open.
    Unordered,
    /// An `<ol>` is open.
    Ordered,
}

/// The closing tag of an open list.
pub open spec fn close_tag(kind: ListKind) -> Seq<char> {
    if kind == ListKind::Unordered {
        "</ul>"@
    } else {
        "</ol>"@
    }
}

/// `html` after making sure that a list of kind `want` is open: the list
/// that is open is closed and `tag` opens the new one, unless it is already
/// of kind `want`.
pub open spec fn opened(html: Seq<char>, kind: ListKind, want: ListKind, tag: Seq<char>) -> Seq<char> {
    if kind == want {
        html
    } else if kind != ListKind::Closed {
        html + close_tag(kind) + tag
    } else {
        html + tag
    }
}

/// `s` ends with `p`.
pub open spec fn has_suffix(s: Seq<char>, p: Seq<char>) -> bool {
    p.len() <= s.len() && s.skip(s.len() - p.len()) == p
}

/// The end of a list: the pending item (closed with `</li>` unless it
/// already ends with it), then the closing tag of the open list.
pub open spec fn list_finish(html: Seq<char>, kind: ListKind, cur: Seq<char>) -> Seq<char> {
    let h = if cur.len() > 0 {
        if has_suffix(cur, "</li>"@) {
            html + cur
        } else {
            html + cur + "</li>"@
        }
    } else {
        html
    };
    if kind != ListKind::Closed {
        h + close_tag(kind)
    } else {
        h
    }
}

/// The opening of a task-list item.
pub open spec fn task_item_html(checked: bool, text: Seq<char>) -> Seq<char> {
    "<li class=\"task-list-item\"><input type=\"checkbox\" class=\"task-list-item-checkbox\""@
        + (if checked {
        " checked"@
    } else {
        seq![]
    }) + " disabled> "@ + inline_html(text)
}

/// The pending item after a line `t` that continues its text: a space and
/// the text's inline HTML, unless there is no pending item or it is closed.
pub open spec fn continued(cur: Seq<char>, t: Seq<char>) -> Seq<char> {
    if cur.len() > 0 && !has_suffix(cur, "</li>"@) {
        cur + seq![' '] + inline_html(t)
    } else {
        cur
    }
}

/// 1 when line `i` is indented deeper than `base`: a nested list starts
/// there.
pub open spec fn list_flag(lines: Seq<Seq<char>>, i: int, base: int) -> int {
    if 0 <= i < lines.len() && indent_of(lines[i]) > base {
        1
    } else {
        0
    }
}

/// Reading a list at indentation `base` from line `i`, in state
/// (`html`, `kind`, `cur`): the HTML of the list and the first line after
/// it.
pub open spec fn list_loop(
    lines: Seq<Seq<char>>,
    base: int,
    i: int,
    html: Seq<char>,
    kind: ListKind,
    cur: Seq<char>,
) -> (Seq<char>, int)
    decreases lines.len() - i, list_flag(lines, i, base),
{
    if i < 0 || i >= lines.len() {
        (list_finish(html, kind, cur), i)
    } else {
        let line = lines[i];
        let t = trim(line);
        if t.len() == 0 {
            let h = html + cur;
            let h2 = if kind != ListKind::Closed {
                h + close_tag(kind)
            } else {
                h
            };
            list_loop(lines, base, i + 1, h2, ListKind::Closed, seq![])
        } else {
            let ind = indent_of(line) as int;
            if ind < base {
                (list_finish(html, kind, cur), i)
            } else if ind == base {
                let h = html + cur;
                match task_of(line) {
                    Some((checked, text)) => list_loop(
                        lines,
                        base,
                        i + 1,
                        opened(h, kind, ListKind::Unordered, "<ul class=\"contains-task-list\">"@),
                        ListKind::Unordered,
                        task_item_html(checked, text),
                    ),
                    None => if has_prefix(t, "- "@) || has_prefix(t, "* "@) {
                        list_loop(
                            lines,
                            base,
                            i + 1,
                            opened(h, kind, ListKind::Unordered, "<ul>"@),
                            ListKind::Unordered,
                            "<li>"@ + inline_html(t.skip(2)),
                        )
                    } else {
                        match ordered_marker(t) {
                            Some(k) => list_loop(
                                lines,
                                base,
                                i + 1,
                                opened(h, kind, ListKind::Ordered, "<ol>"@),
                                ListKind::Ordered,
                                "<li>"@ + inline_html(t.skip(k + 2)),
                            ),
                            None => (list_finish(h, kind, seq![]), i),
                        }
                    },
                }
            } else if list_item_of(trim_start(line)) is Some {
                let (nested, j) = list_loop(lines, ind, i, seq![], ListKind::Closed, seq![]);
                if j <= i || j > lines.len() {
                    list_loop(lines, base, i + 1, html, kind, continued(cur, t))
                } else if cur.len() > 0 {
                    list_loop(lines, base, j, html + cur + nested + "</li>"@, kind, seq![])
                } else {
                    list_loop(lines, base, j, html + nested, kind, seq![])
                }
            } else {
                list_loop(lines, base, i + 1, html, kind, continued(cur, t))
            }
        }
    }
}

/// The list that starts at line `start` with indentation `base`.
pub open spec fn list_html(lines: Seq<Seq<char>>, start: int, base: int) -> (Seq<char>, int) {
    list_loop(lines, base, start, seq![], ListKind::Closed, seq![])
}

proof fn lemma_finish_prefix(html: Seq<char>, kind: ListKind, cur: Seq<char>)
    ensures
        has_prefix(list_finish(html, kind, cur), html + cur),
{
    let h = if cur.len() > 0 {
        if has_suffix(cur, "</li>"@) {
            html + cur
        } else {
            html + cur + "</li>"@
        }
    } else {
        html
    };
    assert(cur.len() == 0 ==> html + cur =~= html);
    lemma_prefix_concat(html + cur, "</li>"@);
    lemma_prefix_concat(html + cur, seq![]);
    assert(has_prefix(h, html + cur));
    lemma_prefix_concat(h, close_tag(kind));
    if kind != ListKind::Closed {
        lemma_prefix_trans(h + close_tag(kind), h, html + cur);
    }
}

proof fn lemma_opened_prefix(html: Seq<char>, kind: ListKind, want: ListKind, tag: Seq<char>)
    ensures
        has_prefix(opened(html, kind, want, tag), html),
{
    lemma_prefix_concat(html, seq![]);
    assert(html + seq![] =~= html);
    lemma_prefix_concat(html, tag);
    lemma_prefix_concat(html, close_tag(kind) + tag);
    assert(html + close_tag(kind) + tag =~= html + (close_tag(kind) + tag));
}

/// What a list reading has written, and the pending item, stay at the
/// front of its result; the reading never moves back.
pub proof fn lemma_list_loop_prefix(
    lines: Seq<Seq<char>>,
    base: int,
    i: int,
    html: Seq<char>,
    kind: ListKind,
    cur: Seq<char>,
)
    requires
        0 <= i,
    ensures
        has_prefix(list_loop(lines, base, i, html, kind, cur).0, html + cur),
        list_loop(lines, base, i, html, kind, cur).1 >= i,
    decreases lines.len() - i, list_flag(lines, i, base),
{
    reveal_with_fuel(list_loop, 1);
    let r = list_loop(lines, base, i, html, kind, cur);
    if i >= lines.len() {
        lemma_finish_prefix(html, kind, cur);
    } else {
        let line = lines[i];
        let t = trim(line);
        let hc = html + cur;
        if t.len() == 0 {
            let h2 = if kind != ListKind::Closed {
                hc + close_tag(kind)
            } else {
                hc
            };
            lemma_list_loop_prefix(lines, base, i + 1, h2, ListKind::Closed, seq![]);
            assert(h2 + seq![] =~= h2);
            lemma_prefix_concat(hc, close_tag(kind));
            lemma_prefix_concat(hc, seq![]);
            assert(hc + seq![] =~= hc);
            lemma_prefix_trans(r.0, h2, hc);
        } else {
            let ind = indent_of(line) as int;
            if ind < base {
                lemma_finish_prefix(html, kind, cur);
            } else if ind == base {
                match task_of(line) {
                    Some((checked, text)) => {
                        let h2 = opened(hc, kind, ListKind::Unordered, "<ul class=\"contains-task-list\">"@);
                        let c2 = task_item_html(checked, text);
                        lemma_list_loop_prefix(lines, base, i + 1, h2, ListKind::Unordered, c2);
                        lemma_prefix_concat(h2, c2);
                        lemma_opened_prefix(hc, kind, ListKind::Unordered, "<ul class=\"contains-task-list\">"@);
                        lemma_prefix_trans(r.0, h2 + c2, h2);
                        lemma_prefix_trans(r.0, h2, hc);
                    },
                    None => if has_prefix(t, "- "@) || has_prefix(t, "* "@) {
                        let h2 = opened(hc, kind, ListKind::Unordered, "<ul>"@);
                        let c2 = "<li>"@ + inline_html(t.skip(2));
                        lemma_list_loop_prefix(lines, base, i + 1, h2, ListKind::Unordered, c2);
                        lemma_prefix_concat(h2, c2);
                        lemma_opened_prefix(hc, kind, ListKind::Unordered, "<ul>"@);
                        lemma_prefix_trans(r.0, h2 + c2, h2);
                        lemma_prefix_trans(r.0, h2, hc);
                    } else {
                        match ordered_marker(t) {
                            Some(k) => {
                                let h2 = opened(hc, kind, ListKind::Ordered, "<ol>"@);
                                let c2 = "<li>"@ + inline_html(t.skip(k + 2));
                                lemma_list_loop_prefix(lines, base, i + 1, h2, ListKind::Ordered, c2);
                                lemma_prefix_concat(h2, c2);
                                lemma_opened_prefix(hc, kind, ListKind::Ordered, "<ol>"@);
                                lemma_prefix_trans(r.0, h2 + c2, h2);
                                lemma_prefix_trans(r.0, h2, hc);
                            },
                            None => {
                                lemma_finish_prefix(hc, kind, seq![]);
                                assert(hc + seq![] =~= hc);
                            },
                        }
                    },
                }
            } else if list_item_of(trim_start(line)) is Some {
                let (nested, j) = list_loop(lines, ind, i, seq![], ListKind::Closed, seq![]);
                if j <= i || j > lines.len() {
                    let c2 = continued(cur, t);
                    lemma_list_loop_prefix(lines, base, i + 1, html, kind, c2);
                    lemma_prefix_concat(cur, seq![' '] + inline_html(t));
                    assert(cur + seq![' '] + inline_html(t) =~= cur + (seq![' '] + inline_html(t)));
                    lemma_prefix_concat(cur, seq![]);
                    assert(cur + seq![] =~= cur);
                    assert(has_prefix(c2, cur));
                    assert(has_prefix(html + c2, hc)) by {
                        assert((html + c2).take(hc.len() as int) =~= html + c2.take(cur.len() as int));
                    }
                    lemma_prefix_trans(r.0, html + c2, hc);
                } else if cur.len() > 0 {
                    let h2 = hc + nested + "</li>"@;
                    lemma_list_loop_prefix(lines, base, j, h2, kind, seq![]);
                    assert(h2 + seq![] =~= h2);
                    assert(h2 =~= hc + (nested + "</li>"@));
                    lemma_prefix_concat(hc, nested + "</li>"@);
                    lemma_prefix_trans(r.0, h2, hc);
                } else {
                    let h2 = html + nested;
                    lemma_list_loop_prefix(lines, base, j, h2, kind, seq![]);
                    assert(h2 + seq![] =~= h2);
                    assert(hc =~= html);
                    lemma_prefix_concat(html, nested);
                    lemma_prefix_trans(r.0, h2, hc);
                }
            } else {
                let c2 = continued(cur, t);
                lemma_list_loop_prefix(lines, base, i + 1, html, kind, c2);
                lemma_prefix_concat(cur, seq![' '] + inline_html(t));
                assert(cur + seq![' '] + inline_html(t) =~= cur + (seq![' '] + inline_html(t)));
                lemma_prefix_concat(cur, seq![]);
                assert(cur + seq![] =~= cur);
                assert(has_prefix(c2, cur));
                assert(has_prefix(html + c2, hc)) by {
                    assert((html + c2).take(hc.len() as int) =~= html + c2.take(cur.len() as int));
                }
                lemma_prefix_trans(r.0, html + c2, hc);
            }
        }
    }
}

/// A line whose trimmed text starts with `- ` or `* ` (and is no task item)
/// opens an unordered list with an item holding the inline HTML of the text
/// after the marker, and the list reads on past that line.
pub proof fn lemma_bullet_line_opens_unordered_list(lines: Seq<Seq<char>>, i: int)
    requires
        0 <= i < lines.len(),
        task_of(lines[i]) is None,
        has_prefix(trim(lines[i]), "- "@) || has_prefix(trim(lines[i]), "* "@),
    ensures
        list_html(lines, i, indent_of(lines[i]) as int).1 > i,
        has_prefix(
            list_html(lines, i, indent_of(lines[i]) as int).0,
            "<ul><li>"@ + inline_html(trim(lines[i]).skip(2)),
        ),
{
    reveal_strlit("- ");
    reveal_strlit("* ");
    reveal_strlit("<ul>");
    reveal_strlit("<li>");
    reveal_strlit("<ul><li>");
    let base = indent_of(lines[i]) as int;
    let t = trim(lines[i]);
    let h2 = opened(seq![] + seq![], ListKind::Closed, ListKind::Unordered, "<ul>"@);
    let c2 = "<li>"@ + inline_html(t.skip(2));
    assert(list_html(lines, i, base) == list_loop(lines, base, i + 1, h2, ListKind::Unordered, c2)) by {
        reveal_with_fuel(list_loop, 1);
    }
    lemma_list_loop_prefix(lines, base, i + 1, h2, ListKind::Unordered, c2);
    assert(h2 + c2 =~= "<ul><li>"@ + inline_html(t.skip(2)));
}

/// A line whose trimmed text is digits then `. ` (and no task or bullet
/// item) opens an ordered list with an item holding the inline HTML of the
/// text after the marker, and the list reads on past that line.
pub proof fn lemma_numbered_line_opens_ordered_list(lines: Seq<Seq<char>>, i: int, k: int)
    requires
        0 <= i < lines.len(),
        task_of(lines[i]) is None,
        !has_prefix(trim(lines[i]), "- "@),
        !has_prefix(trim(lines[i]), "* "@),
        ordered_marker(trim(lines[i])) == Some(k),
    ensures
        list_html(lines, i, indent_of(lines[i]) as int).1 > i,
        has_prefix(
            list_html(lines, i, indent_of(lines[i]) as int).0,
            "<ol>"@ + "<li>"@ + inline_html(trim(lines[i]).skip(k + 2)),
        ),
{
    let base = indent_of(lines[i]) as int;
    let t = trim(lines[i]);
    reveal_strlit(". ");
    let h2 = opened(seq![] + seq![], ListKind::Closed, ListKind::Ordered, "<ol>"@);
    let c2 = "<li>"@ + inline_html(t.skip(k + 2));
    assert(t.len() > 0) by {
        assert(find(t, ". "@) == Some(k));
        crate::text::lemma_find_bounds(t, ". "@, 0);
    }
    assert(list_html(lines, i, base) == list_loop(lines, base, i + 1, h2, ListKind::Ordered, c2)) by {
        reveal_with_fuel(list_loop, 1);
    }
    lemma_list_loop_prefix(lines, base, i + 1, h2, ListKind::Ordered, c2);
    assert(h2 + c2 =~= "<ol>"@ + "<li>"@ + inline_html(t.skip(k + 2)));
}

/// A task item `- [ ] text` or `- [x] text` opens a task list with a
/// checkbox item, checked exactly for `[x]`, followed by the inline HTML of
/// the text; the list reads on past that line.
pub proof fn lemma_task_line_opens_task_list(lines: Seq<Seq<char>>, i: int, checked: bool, text: Seq<char>)
    requires
        0 <= i < lines.len(),
        trim(lines[i]).len() > 0,
        task_of(lines[i]) == Some((checked, text)),
    ensures
        list_html(lines, i, indent_of(lines[i]) as int).1 > i,
        has_prefix(
            list_html(lines, i, indent_of(lines[i]) as int).0,
            "<ul class=\"contains-task-list\">"@
                + "<li class=\"task-list-item\"><input type=\"checkbox\" class=\"task-list-item-checkbox\""@
                + (if checked {
                " checked"@
            } else {
                seq![]
            }) + " disabled> "@ + inline_html(text),
        ),
{
    let base = indent_of(lines[i]) as int;
    let h2 = opened(
        seq![] + seq![],
        ListKind::Closed,
        ListKind::Unordered,
        "<ul class=\"contains-task-list\">"@,
    );
    let c2 = task_item_html(checked, text);
    assert(list_html(lines, i, base) == list_loop(lines, base, i + 1, h2, ListKind::Unordered, c2)) by {
        reveal_with_fuel(list_loop, 1);
    }
    lemma_list_loop_prefix(lines, base, i + 1, h2, ListKind::Unordered, c2);
    assert(h2 + c2 =~= "<ul class=\"contains-task-list\">"@
        + "<li class=\"task-list-item\"><input type=\"checkbox\" class=\"task-list-item-checkbox\""@
        + (if checked {
        " checked"@
    } else {
        seq![]
    }) + " disabled> "@ + inline_html(text));
}

/// Indentation characters: spaces and tabs.
pub open spec fn is_indent(p: Seq<char>) -> bool {
    forall|k: int| 0 <= k < p.len() ==> p[k] == ' ' || p[k] == '\t'
}

proof fn lemma_indent_concat(p: Seq<char>, r: Seq<char>)
    requires
        is_indent(p),
    ensures
        indent_of(p + r) == indent_of(p) + indent_of(r),
        trim_start(p + r) == trim_start(r),
        forall|k: int| 0 <= k <= p.len() ==> #[trigger] ws_run(p + r, k) == (p.len() - k) + ws_run(p + r, p.len() as int),
    decreases p.len(),
{
    if p.len() > 0 {
        let q = p.drop_first();
        lemma_indent_concat(q, r);
        assert((p + r).drop_first() =~= q + r);
        assert forall|k: int| 0 <= k <= p.len() implies #[trigger] ws_run(p + r, k) == (p.len() - k) + ws_run(p + r, p.len() as int) by {
            lemma_ws_run_from(p + r, k, p.len() as int);
        }
    }
}

proof fn lemma_ws_run_from(s: Seq<char>, k: int, n: int)
    requires
        0 <= k <= n <= s.len(),
        forall|m: int| 0 <= m < n ==> is_ws(s[m]),
    ensures
        ws_run(s, k) == (n - k) + ws_run(s, n),
    decreases n - k,
{
    if k < n {
        lemma_ws_run_from(s, k + 1, n);
    }
}

proof fn lemma_trim_end_concat(a: Seq<char>, b: Seq<char>)
    requires
        trim_end(b).len() > 0,
    ensures
        trim_end(a + b) == a + trim_end(b),
    decreases b.len(),
{
    lemma_trim_end_first(b);
    assert((a + b).last() == b.last());
    if is_ws(b.last()) {
        lemma_trim_end_concat(a, b.drop_last());
        assert((a + b).drop_last() =~= a + b.drop_last());
    }
}

/// What the list reader reads of a line `p` + `m` + `' '` + `x`, with `p`
/// indentation and `m` the `*` or `-` of a bullet.
proof fn lemma_bullet_line(p: Seq<char>, m: char, x: Seq<char>)
    requires
        is_indent(p),
        m == '*' || m == '-',
        trim_end(x).len() > 0,
    ensures
        indent_of(p + seq![m, ' '] + x) == indent_of(p),
        trim_start(p + seq![m, ' '] + x) == seq![m, ' '] + x,
        trim(p + seq![m, ' '] + x) == seq![m, ' '] + trim_end(x),
        m == '*' ==> task_of(p + seq![m, ' '] + x) is None,
        list_item_of(trim_start(p + seq![m, ' '] + x)) is Some,
{
    reveal_strlit("- ");
    reveal_strlit("* ");
    let r = seq![m, ' '] + x;
    let s = p + r;
    assert(s =~= p + seq![m, ' '] + x);
    lemma_indent_concat(p, r);
    assert(r.drop_first() =~= seq![' '] + x);
    assert(indent_of(r) == 0);
    assert(trim_start(r) == r);
    assert(trim_end(r) == seq![m, ' '] + trim_end(x)) by {
        lemma_trim_end_concat(seq![m, ' '], x);
    }
    assert(ws_run(s, p.len() as int) == 0) by {
        assert(s[p.len() as int] == m);
    }
    assert(ws_run(s, 0) == p.len());
    assert(s[p.len() as int] == m);
    assert(ws_run(r, 0) == 0);
    assert(r[0] == m);
    if m == '*' {
        assert(r.take(2) =~= "* "@);
    } else {
        assert(r.take(2) =~= "- "@);
    }
}

/// A list reading that starts inside the lines ends inside them, or just
/// after the last.
proof fn lemma_list_loop_le(
    lines: Seq<Seq<char>>,
    base: int,
    i: int,
    html: Seq<char>,
    kind: ListKind,
    cur: Seq<char>,
)
    requires
        0 <= i <= lines.len(),
    ensures
        list_loop(lines, base, i, html, kind, cur).1 <= lines.len(),
    decreases lines.len() - i, list_flag(lines, i, base),
{
    reveal_with_fuel(list_loop, 1);
    if i < lines.len() {
        let line = lines[i];
        let t = trim(line);
        if t.len() == 0 {
            let h = html + cur;
            let h2 = if kind != ListKind::Closed {
                h + close_tag(kind)
            } else {
                h
            };
            lemma_list_loop_le(lines, base, i + 1, h2, ListKind::Closed, seq![]);
        } else {
            let ind = indent_of(line) as int;
            if ind < base {
            } else if ind == base {
                let h = html + cur;
                match task_of(line) {
                    Some((checked, text)) => {
                        lemma_list_loop_le(
                            lines,
                            base,
                            i + 1,
                            opened(h, kind, ListKind::Unordered, "<ul class=\"contains-task-list\">"@),
                            ListKind::Unordered,
                            task_item_html(checked, text),
                        );
                    },
                    None => if has_prefix(t, "- "@) || has_prefix(t, "* "@) {
                        lemma_list_loop_le(
                            lines,
                            base,
                            i + 1,
                            opened(h, kind, ListKind::Unordered, "<ul>"@),
                            ListKind::Unordered,
                            "<li>"@ + inline_html(t.skip(2)),
                        );
                    } else {
                        match ordered_marker(t) {
                            Some(k) => {
                                lemma_list_loop_le(
                                    lines,
                                    base,
                                    i + 1,
                                    opened(h, kind, ListKind::Ordered, "<ol>"@),
                                    ListKind::Ordered,
                                    "<li>"@ + inline_html(t.skip(k + 2)),
                                );
                            },
                            None => {},
                        }
                    },
                }
            } else if list_item_of(trim_start(line)) is Some {
                let (nested, jj) = list_loop(lines, ind, i, seq![], ListKind::Closed, seq![]);
                if jj <= i || jj > lines.len() {
                    lemma_list_loop_le(lines, base, i + 1, html, kind, continued(cur, t));
                } else if cur.len() > 0 {
                    lemma_list_loop_le(lines, base, jj, html + cur + nested + "</li>"@, kind, seq![]);
                } else {
                    lemma_list_loop_le(lines, base, jj, html + nested, kind, seq![]);
                }
            } else {
                lemma_list_loop_le(lines, base, i + 1, html, kind, continued(cur, t));
            }
        }
    }
}

/// Reading a list over two runs of lines that differ only at line `j`,
/// where one holds a `* ` item and the other the same item with `- `.
proof fn lemma_star_dash_loop(
    lines: Seq<Seq<char>>,
    lines2: Seq<Seq<char>>,
    j: int,
    y: Seq<char>,
    base: int,
    i: int,
    html: Seq<char>,
    kind: ListKind,
    cur: Seq<char>,
)
    requires
        lines.len() == lines2.len(),
        0 <= j < lines.len(),
        forall|k: int| 0 <= k < lines.len() && k != j ==> lines[k] == lines2[k],
        indent_of(lines[j]) == indent_of(lines2[j]),
        trim(lines[j]) == "* "@ + y,
        trim(lines2[j]) == "- "@ + y,
        task_of(lines[j]) is None,
        task_of(lines2[j]) is None,
        list_item_of(trim_start(lines[j])) is Some,
        list_item_of(trim_start(lines2[j])) is Some,
    ensures
        list_loop(lines, base, i, html, kind, cur) == list_loop(lines2, base, i, html, kind, cur),
    decreases lines.len() - i, list_flag(lines, i, base),
{
    reveal_strlit("- ");
    reveal_strlit("* ");
    reveal_with_fuel(list_loop, 1);
    if 0 <= i < lines.len() {
        let line = lines[i];
        let t = trim(line);
        if i != j {
            assert(lines2[i] == lines[i]);
        }
        if i == j {
            lemma_prefix_concat("* "@, y);
            lemma_prefix_concat("- "@, y);
            assert(t.skip(2) =~= y);
            assert(trim(lines2[j]).skip(2) =~= y);
        }
        if t.len() == 0 {
            let h = html + cur;
            let h2 = if kind != ListKind::Closed {
                h + close_tag(kind)
            } else {
                h
            };
            lemma_star_dash_loop(lines, lines2, j, y, base, i + 1, h2, ListKind::Closed, seq![]);
        } else {
            let ind = indent_of(line) as int;
            if ind < base {
            } else if ind == base {
                let h = html + cur;
                match task_of(line) {
                    Some((checked, text)) => {
                        lemma_star_dash_loop(
                            lines,
                            lines2,
                            j,
                            y,
                            base,
                            i + 1,
                            opened(h, kind, ListKind::Unordered, "<ul class=\"contains-task-list\">"@),
                            ListKind::Unordered,
                            task_item_html(checked, text),
                        );
                    },
                    None => if has_prefix(t, "- "@) || has_prefix(t, "* "@) {
                        lemma_star_dash_loop(
                            lines,
                            lines2,
                            j,
                            y,
                            base,
                            i + 1,
                            opened(h, kind, ListKind::Unordered, "<ul>"@),
                            ListKind::Unordered,
                            "<li>"@ + inline_html(t.skip(2)),
                        );
                    } else {
                        match ordered_marker(t) {
                            Some(k) => {
                                lemma_star_dash_loop(
                                    lines,
                                    lines2,
                                    j,
                                    y,
                                    base,
                                    i + 1,
                                    opened(h, kind, ListKind::Ordered, "<ol>"@),
                                    ListKind::Ordered,
                                    "<li>"@ + inline_html(t.skip(k + 2)),
                                );
                            },
                            None => {},
                        }
                    },
                }
            } else if list_item_of(trim_start(line)) is Some {
                lemma_star_dash_loop(lines, lines2, j, y, ind, i, seq![], ListKind::Closed, seq![]);
                let (nested, jj) = list_loop(lines, ind, i, seq![], ListKind::Closed, seq![]);
                if i == j {
                    lemma_list_loop_prefix(
                        lines,
                        ind,
                        i + 1,
                        opened(seq![] + seq![], ListKind::Closed, ListKind::Unordered, "<ul>"@),
                        ListKind::Unordered,
                        "<li>"@ + inline_html(t.skip(2)),
                    );
                    assert(jj > i);
                    lemma_list_loop_le(lines, ind, i, seq![], ListKind::Closed, seq![]);
                }
                if jj <= i || jj > lines.len() {
                    lemma_star_dash_loop(lines, lines2, j, y, base, i + 1, html, kind, continued(cur, t));
                } else if cur.len() > 0 {
                    lemma_star_dash_loop(lines, lines2, j, y, base, jj, html + cur + nested + "</li>"@, kind, seq![]);
                } else {
                    lemma_star_dash_loop(lines, lines2, j, y, base, jj, html + nested, kind, seq![]);
                }
            } else {
                lemma_star_dash_loop(lines, lines2, j, y, base, i + 1, html, kind, continued(cur, t));
            }
        }
    }
}

/// `* ` and `- ` mark the same bullet item: replacing, in one line, the `*`
/// of an item `* x` by `-` (when that does not make it a task item, and `x`
/// is not blank) leaves the list read from any line and indentation as it
/// was.
pub proof fn lemma_star_reads_as_dash(
    lines: Seq<Seq<char>>,
    j: int,
    p: Seq<char>,
    x: Seq<char>,
    i: int,
    base: int,
)
    requires
        0 <= j < lines.len(),
        is_indent(p),
        trim_end(x).len() > 0,
        lines[j] == p + "* "@ + x,
        task_of(p + "- "@ + x) is None,
    ensures
        list_html(lines, i, base) == list_html(lines.update(j, p + "- "@ + x), i, base),
{
    reveal_strlit("- ");
    reveal_strlit("* ");
    assert("* "@ =~= seq!['*', ' ']);
    assert("- "@ =~= seq!['-', ' ']);
    lemma_bullet_line(p, '*', x);
    lemma_bullet_line(p, '-', x);
    let lines2 = lines.update(j, p + "- "@ + x);
    assert(seq!['*', ' '] + trim_end(x) =~= "* "@ + trim_end(x));
    assert(seq!['-', ' '] + trim_end(x) =~= "- "@ + trim_end(x));
    lemma_star_dash_loop(lines, lines2, j, trim_end(x), base, i, seq![], ListKind::Closed, seq![]);
}

// ---------------------------------------------------------------------
// Executable reading
// ---------------------------------------------------------------------

fn close_list(html: &mut Vec<char>, kind: ListKind)
    ensures
        final(html)@ == old(html)@ + close_tag(kind),
{
    if kind == ListKind::Unordered {
        push_str(html, "</ul>");
    } else {
        push_str(html, "</ol>");
    }
}

fn open_list(html: &mut Vec<char>, kind: &mut ListKind, want: ListKind, tag: &str)
    ensures
        final(html)@ == opened(old(html)@, *old(kind), want, tag@),
        *final(kind) == want,
{
    if *kind != want {
        if *kind != ListKind::Closed {
            close_list(html, *kind);
        }
        push_str(html, tag);
        *kind = want;
    }
}

fn finish_list(html: &mut Vec<char>, kind: ListKind, cur: &Vec<char>)
    ensures
        final(html)@ == list_finish(old(html)@, kind, cur@),
{
    if cur.len() > 0 {
        if ends_with(cur, "</li>") {
            push_all(html, cur);
        } else {
            push_all(html, cur);
            push_str(html, "</li>");
        }
    }
    if kind != ListKind::Closed {
        close_list(html, kind);
    }
}

/// Parse a list (ordered or unordered) with nested list support.
///
/// Gives the HTML of the list and the first line after it; past the end
/// of the lines, an empty list that ends where it starts.
pub fn parse_list(lines: &Vec<Vec<char>>, start: usize, base_indent: u128) -> (r: (Vec<char>, usize))
    ensures
        list_html(lines_view(lines@), start as int, base_indent as int) == (r.0@, r.1 as int),
        start <= r.1,
        start <= lines.len() ==> r.1 <= lines.len(),
        start > lines.len() ==> r.1 == start,
    decreases lines.len() - start, list_flag(lines_view(lines@), start as int, base_indent as int),
{
    let ghost lv = lines_view(lines@);
    let ghost b = base_indent as int;
    let ghost target = list_html(lv, start as int, b);
    if start >= lines.len() {
        assert(target == (Seq::<char>::empty(), start as int)) by {
            reveal_with_fuel(list_loop, 1);
        }
        return (Vec::new(), start);
    }
    let mut html: Vec<char> = Vec::new();
    let mut cur: Vec<char> = Vec::new();
    let mut kind = ListKind::Closed;
    let mut i = start;
    while i < lines.len()
        invariant
            start <= i <= lines.len(),
            lv == lines_view(lines@),
            b == base_indent as int,
            target == list_html(lv, start as int, b),
            list_loop(lv, b, i as int, html@, kind, cur@) == target,
        decreases lines.len() - i,
    {
        let line = &lines[i];
        let ghost html0 = html@;
        let ghost cur0 = cur@;
        let ghost kind0 = kind;
        let ghost i0 = i as int;
        assert(line@ == lv[i0]);
        let trimmed = trim_chars(line);
        if trimmed.len() == 0 {
            push_all(&mut html, &cur);
            cur = Vec::new();
            if kind != ListKind::Closed {
                close_list(&mut html, kind);
                kind = ListKind::Closed;
            }
            i += 1;
            assert(list_loop(lv, b, i0, html0, kind0, cur0) == list_loop(lv, b, i as int, html@, kind, cur@)) by {
                reveal_with_fuel(list_loop, 1);
            }
        } else {
            let indent = get_indent_level(line);
            if indent < base_indent {
                finish_list(&mut html, kind, &cur);
                assert(list_loop(lv, b, i0, html0, kind0, cur0) == (html@, i0)) by {
                    reveal_with_fuel(list_loop, 1);
                }
                return (html, i);
            } else if indent == base_indent {
                push_all(&mut html, &cur);
                cur = Vec::new();
                proof {
                    reveal_strlit("- ");
                    reveal_strlit("* ");
                }
                if let Some((checked, text)) = match_task(line) {
                    open_list(&mut html, &mut kind, ListKind::Unordered, "<ul class=\"contains-task-list\">");
                    push_str(&mut cur, "<li class=\"task-list-item\"><input type=\"checkbox\" class=\"task-list-item-checkbox\"");
                    if checked {
                        push_str(&mut cur, " checked");
                    }
                    push_str(&mut cur, " disabled> ");
                    push_all(&mut cur, &parse_inline(&text));
                    assert(cur@ =~= task_item_html(checked, text@));
                    i += 1;
                    assert(list_loop(lv, b, i0, html0, kind0, cur0) == list_loop(lv, b, i as int, html@, kind, cur@)) by {
                        reveal_with_fuel(list_loop, 1);
                    }
                } else if starts_with(&trimmed, "- ") || starts_with(&trimmed, "* ") {
                    open_list(&mut html, &mut kind, ListKind::Unordered, "<ul>");
                    let text = slice_of(&trimmed, 2, trimmed.len());
                    push_str(&mut cur, "<li>");
                    push_all(&mut cur, &parse_inline(&text));
                    assert(cur@ =~= "<li>"@ + inline_html(trimmed@.skip(2)));
                    i += 1;
                    assert(list_loop(lv, b, i0, html0, kind0, cur0) == list_loop(lv, b, i as int, html@, kind, cur@)) by {
                        reveal_with_fuel(list_loop, 1);
                    }
                } else {
                    match match_ordered_marker(&trimmed) {
                        Some(num_end) => {
                            open_list(&mut html, &mut kind, ListKind::Ordered, "<ol>");
                            let text = slice_of(&trimmed, num_end + 2, trimmed.len());
                            push_str(&mut cur, "<li>");
                            push_all(&mut cur, &parse_inline(&text));
                            assert(cur@ =~= "<li>"@ + inline_html(trimmed@.skip(num_end + 2)));
                            i += 1;
                            assert(list_loop(lv, b, i0, html0, kind0, cur0) == list_loop(lv, b, i as int, html@, kind, cur@)) by {
                                reveal_with_fuel(list_loop, 1);
                            }
                        },
                        None => {
                            let empty: Vec<char> = Vec::new();
                            finish_list(&mut html, kind, &empty);
                            assert(list_loop(lv, b, i0, html0, kind0, cur0) == (html@, i0)) by {
                                reveal_with_fuel(list_loop, 1);
                            }
                            return (html, i);
                        },
                    }
                }
            } else {
                let trimmed_line = trim_start_chars(line);
                let is_item = parse_list_item(&trimmed_line).is_some();
                let (nested, new_i) = if is_item {
                    parse_list(lines, i, indent)
                } else {
                    (Vec::new(), i)
                };
                if is_item && new_i > i {
                    assert(list_loop(lv, b, i0, html0, kind0, cur0) == list_loop(
                        lv,
                        b,
                        new_i as int,
                        if cur0.len() > 0 {
                            html0 + cur0 + nested@ + "</li>"@
                        } else {
                            html0 + nested@
                        },
                        kind0,
                        seq![],
                    )) by {
                        reveal_with_fuel(list_loop, 1);
                    }
                    if cur.len() > 0 {
                        push_all(&mut cur, &nested);
                        push_str(&mut cur, "</li>");
                        push_all(&mut html, &cur);
                        cur = Vec::new();
                        assert(html@ =~= html0 + cur0 + nested@ + "</li>"@);
                    } else {
                        push_all(&mut html, &nested);
                    }
                    i = new_i;
                    assert(cur@ =~= Seq::<char>::empty());
                } else {
                    if cur.len() > 0 && !ends_with(&cur, "</li>") {
                        cur.push(' ');
                        push_all(&mut cur, &parse_inline(&trimmed));
                        assert(cur@ =~= cur0 + seq![' '] + inline_html(trimmed@));
                    }
                    i += 1;
                    assert(list_loop(lv, b, i0, html0, kind0, cur0) == list_loop(lv, b, i as int, html@, kind, cur@)) by {
                        reveal_with_fuel(list_loop, 1);
                    }
                }
            }
        }
    }
    let ghost html0 = html@;
    let ghost cur0 = cur@;
    finish_list(&mut html, kind, &cur);
    assert(list_loop(lv, b, i as int, html0, kind, cur0) == (html@, i as int)) by {
        reveal_with_fuel(list_loop, 1);
    }
    (html, i)
}

} // verus!
