//! Putting the HTML of the chunks of a document back together.
//!
//! The chunks of a document are rendered independently (in parallel, by the
//! caller) and come back in any order; they are put back in the order of
//! their indices and their HTML is joined with newlines.
use vstd::prelude::*;
use vstd::multiset::Multiset;
use crate::parser::ParsedChunk;
use crate::chunker::{chunk_contents, newline};
use crate::parser::chunk_html;
use crate::text::{chars_to_string, join, lemma_join_push, push_all, str_to_chars};

verus! {

/// Default chunk size (lines per chunk).
pub const DEFAULT_CHUNK_SIZE: usize = 500;

/// `x` inserted into `sorted` after every chunk whose index is not larger.
pub open spec fn insert_by_index(sorted: Seq<ParsedChunk>, x: ParsedChunk) -> Seq<ParsedChunk>
    decreases sorted.len(),
{
    if sorted.len() == 0 {
        seq![x]
    } else if sorted.last().index <= x.index {
        sorted.push(x)
    } else {
        insert_by_index(sorted.drop_last(), x).push(sorted.last())
    }
}

/// The chunks in the order of their indices; chunks with equal indices
/// keep their relative order (a stable sort by index).
pub open spec fn sort_by_index(s: Seq<ParsedChunk>) -> Seq<ParsedChunk>
    decreases s.len(),
{
    if s.len() == 0 {
        seq![]
    } else {
        insert_by_index(sort_by_index(s.drop_last()), s.last())
    }
}

/// The pieces of HTML joined in order, with a newline before each piece
/// that follows non-empty output.
pub open spec fn fold_html(htmls: Seq<Seq<char>>) -> Seq<char>
    decreases htmls.len(),
{
    if htmls.len() == 0 {
        seq![]
    } else {
        let acc = fold_html(htmls.drop_last());
        (if acc.len() > 0 {
            acc.push('\n')
        } else {
            acc
        }) + htmls.last()
    }
}

/// The HTML of each chunk.
pub open spec fn htmls_of(s: Seq<ParsedChunk>) -> Seq<Seq<char>> {
    Seq::new(s.len(), |k: int| s[k].html@)
}

/// The HTML of a document from the HTML of its chunks.
pub open spec fn combined_html(parsed: Seq<ParsedChunk>) -> Seq<char> {
    fold_html(htmls_of(sort_by_index(parsed)))
}

/// The chunks are in non-decreasing order of index.
pub open spec fn is_sorted_by_index(s: Seq<ParsedChunk>) -> bool {
    forall|a: int, b: int| 0 <= a <= b < s.len() ==> s[a].index <= s[b].index
}

// ---------------------------------------------------------------------
// Laws
// ---------------------------------------------------------------------

proof fn lemma_insert_sorted(sorted: Seq<ParsedChunk>, x: ParsedChunk)
    requires
        is_sorted_by_index(sorted),
    ensures
        is_sorted_by_index(insert_by_index(sorted, x)),
        insert_by_index(sorted, x).to_multiset() == sorted.to_multiset().insert(x),
        insert_by_index(sorted, x).len() == sorted.len() + 1,
        forall|k: int|
            0 <= k < insert_by_index(sorted, x).len() ==> (#[trigger] insert_by_index(sorted, x)[k]
                == x || sorted.contains(insert_by_index(sorted, x)[k])),
    decreases sorted.len(),
{
    broadcast use vstd::seq_lib::group_to_multiset_ensures;

    let r = insert_by_index(sorted, x);
    if sorted.len() == 0 {
        assert(r.to_multiset() =~= Multiset::<ParsedChunk>::empty().insert(x)) by {
            assert(r == Seq::<ParsedChunk>::empty().push(x));
            assert(Seq::<ParsedChunk>::empty().to_multiset() =~= Multiset::empty());
        }
    } else if sorted.last().index <= x.index {
        assert forall|k: int| 0 <= k < r.len() implies (#[trigger] r[k] == x || sorted.contains(r[k])) by {
            if k < sorted.len() {
                assert(r[k] == sorted[k]);
            }
        }
    } else {
        let init = sorted.drop_last();
        let last = sorted.last();
        lemma_insert_sorted(init, x);
        let mid = insert_by_index(init, x);
        assert(sorted =~= init.push(last));
        assert forall|a: int, b: int| 0 <= a <= b < r.len() implies r[a].index <= r[b].index by {
            if b == r.len() - 1 {
                if a < b {
                    if mid[a] == x {
                    } else {
                        assert(init.contains(mid[a]));
                        let t = choose|t: int| 0 <= t < init.len() && init[t] == mid[a];
                        assert(sorted[t] == init[t]);
                    }
                }
            }
        }
        assert forall|k: int| 0 <= k < r.len() implies (#[trigger] r[k] == x || sorted.contains(r[k])) by {
            if k < mid.len() {
                assert(r[k] == mid[k]);
                if mid[k] != x {
                    let t = choose|t: int| 0 <= t < init.len() && init[t] == mid[k];
                    assert(sorted[t] == init[t]);
                }
            } else {
                assert(r[k] == sorted[sorted.len() - 1]);
            }
        }
        assert(r.to_multiset() =~= sorted.to_multiset().insert(x));
    }
}

/// Sorting by index gives the chunks in non-decreasing order of index,
/// and the same chunks, each as often as before.
pub proof fn lemma_sort_by_index(s: Seq<ParsedChunk>)
    ensures
        is_sorted_by_index(sort_by_index(s)),
        sort_by_index(s).to_multiset() == s.to_multiset(),
        sort_by_index(s).len() == s.len(),
    decreases s.len(),
{
    broadcast use vstd::seq_lib::group_to_multiset_ensures;

    if s.len() == 0 {
        assert(s.to_multiset() =~= Multiset::empty());
        assert(sort_by_index(s).to_multiset() =~= Multiset::empty());
    } else {
        lemma_sort_by_index(s.drop_last());
        lemma_insert_sorted(sort_by_index(s.drop_last()), s.last());
        assert(s =~= s.drop_last().push(s.last()));
    }
}

proof fn lemma_insert_sorted_tail(sorted: Seq<ParsedChunk>, x: ParsedChunk)
    requires
        sorted.len() > 0 ==> sorted.last().index <= x.index,
    ensures
        insert_by_index(sorted, x) == sorted.push(x),
{
}

/// Chunks that are already in order of index are left as they are: the
/// chunks of a document, indexed `0, 1, 2, ...` by `chunk_by_lines`, are
/// put together in the order of the document.
pub proof fn lemma_sort_keeps_sorted(s: Seq<ParsedChunk>)
    requires
        is_sorted_by_index(s),
    ensures
        sort_by_index(s) == s,
    decreases s.len(),
{
    if s.len() > 0 {
        let init = s.drop_last();
        assert(is_sorted_by_index(init));
        lemma_sort_keeps_sorted(init);
        lemma_insert_sorted_tail(init, s.last());
        assert(init.push(s.last()) =~= s);
    }
}

/// Chunks numbered `0, 1, 2, ...` in their order (as `chunk_by_lines`
/// numbers them) are put together in that order: the document's HTML is
/// the chunks' HTML in document order.
pub proof fn lemma_merge_in_document_order(parsed: Seq<ParsedChunk>)
    requires
        forall|k: int| 0 <= k < parsed.len() ==> (#[trigger] parsed[k]).index == k,
    ensures
        combined_html(parsed) == fold_html(htmls_of(parsed)),
{
    lemma_sort_keeps_sorted(parsed);
}

/// The pieces after the leading empty ones.
pub open spec fn skip_leading_empty(hs: Seq<Seq<char>>) -> Seq<Seq<char>>
    decreases hs.len(),
{
    if hs.len() > 0 && hs[0].len() == 0 {
        skip_leading_empty(hs.drop_first())
    } else {
        hs
    }
}

proof fn lemma_skip_leading_empty_push(hs: Seq<Seq<char>>, x: Seq<char>)
    ensures
        skip_leading_empty(hs).len() > 0 ==> skip_leading_empty(hs)[0].len() > 0,
        skip_leading_empty(hs.push(x)) == if skip_leading_empty(hs).len() == 0 {
            if x.len() == 0 {
                seq![]
            } else {
                seq![x]
            }
        } else {
            skip_leading_empty(hs).push(x)
        },
    decreases hs.len(),
{
    let empty = Seq::<Seq<char>>::empty();
    if hs.len() == 0 {
        assert(seq![x].drop_first() =~= empty);
        assert(hs.push(x) =~= seq![x]);
        assert(skip_leading_empty(empty) == empty);
        assert(skip_leading_empty(hs) == empty);
    } else if hs[0].len() == 0 {
        lemma_skip_leading_empty_push(hs.drop_first(), x);
        assert(hs.push(x).drop_first() =~= hs.drop_first().push(x));
        assert(hs.push(x)[0] == hs[0]);
    } else {
        assert(hs.push(x)[0] == hs[0]);
    }
}

proof fn lemma_join_nonempty(parts: Seq<Seq<char>>)
    requires
        parts.len() > 0,
        parts[0].len() > 0,
    ensures
        join(parts, newline()).len() > 0,
    decreases parts.len(),
{
    if parts.len() > 1 {
        lemma_join_nonempty(parts.drop_last());
    }
}

/// The merged HTML is the pieces after the leading empty ones, joined with
/// newlines.
pub proof fn lemma_fold_html_join(hs: Seq<Seq<char>>)
    ensures
        fold_html(hs) == join(skip_leading_empty(hs), newline()),
    decreases hs.len(),
{
    if hs.len() > 0 {
        let init = hs.drop_last();
        let x = hs.last();
        lemma_fold_html_join(init);
        lemma_skip_leading_empty_push(init, x);
        assert(init.push(x) =~= hs);
        let sk = skip_leading_empty(init);
        if sk.len() == 0 {
            assert(fold_html(init).len() == 0);
        } else {
            lemma_join_nonempty(sk);
            lemma_join_push(sk, x, newline());
            assert(fold_html(init).push('\n') =~= fold_html(init) + newline());
        }
    } else {
        assert(skip_leading_empty(hs) =~= Seq::<Seq<char>>::empty());
    }
}

/// The HTML of a document made of chunks numbered `0, 1, 2, ...` in order
/// is the chunks' HTML, the leading empty ones left out, joined with
/// newlines.
pub proof fn lemma_merged_html(parsed: Seq<ParsedChunk>)
    requires
        forall|k: int| 0 <= k < parsed.len() ==> (#[trigger] parsed[k]).index == k,
    ensures
        combined_html(parsed) == join(skip_leading_empty(htmls_of(parsed)), newline()),
{
    lemma_merge_in_document_order(parsed);
    lemma_fold_html_join(htmls_of(parsed));
}

/// No two chunks share an index.
pub open spec fn has_distinct_indices(s: Seq<ParsedChunk>) -> bool {
    forall|a: int, b: int| 0 <= a < b < s.len() ==> s[a].index != s[b].index
}

proof fn lemma_distinct_transfer(a: Seq<ParsedChunk>, s: Seq<ParsedChunk>)
    requires
        a.to_multiset() == s.to_multiset(),
        has_distinct_indices(a),
    ensures
        has_distinct_indices(s),
{
    broadcast use vstd::seq_lib::group_to_multiset_ensures;

    assert forall|i: int, j: int| 0 <= i < j < s.len() implies s[i].index != s[j].index by {
        if s[i].index == s[j].index {
            assert(s.contains(s[i]));
            assert(a.to_multiset().count(s[i]) > 0);
            let p = choose|p: int| 0 <= p < a.len() && a[p] == s[i];
            assert(s.contains(s[j]));
            assert(a.to_multiset().count(s[j]) > 0);
            let q = choose|q: int| 0 <= q < a.len() && a[q] == s[j];
            assert(p == q) by {
                if p < q {
                    assert(a[p].index != a[q].index);
                } else if q < p {
                    assert(a[q].index != a[p].index);
                }
            }
            let v = s[i];
            let r = s.remove(j);
            assert(r[i] == v);
            assert(r.contains(v));
            let ar = a.remove(p);
            assert(ar.to_multiset() == r.to_multiset());
            assert(ar.to_multiset().count(v) > 0);
            assert(ar.contains(v));
            let k = choose|k: int| 0 <= k < ar.len() && ar[k] == v;
            if k < p {
                assert(a[k] == v);
                assert(a[k].index != a[p].index);
            } else {
                assert(a[k + 1] == v);
                assert(a[p].index != a[k + 1].index);
            }
        }
    }
}

proof fn lemma_sorted_unique(s: Seq<ParsedChunk>, t: Seq<ParsedChunk>)
    requires
        is_sorted_by_index(s),
        is_sorted_by_index(t),
        s.to_multiset() == t.to_multiset(),
        has_distinct_indices(s),
    ensures
        s == t,
    decreases s.len(),
{
    broadcast use vstd::seq_lib::group_to_multiset_ensures;

    assert(s.len() == s.to_multiset().len());
    assert(t.len() == t.to_multiset().len());
    if s.len() > 0 {
        let n = s.len() - 1;
        let x = s[n];
        let y = t[n];
        assert(s.contains(x));
        assert(t.to_multiset().count(x) > 0);
        let p = choose|p: int| 0 <= p < t.len() && t[p] == x;
        assert(t.contains(y));
        assert(s.to_multiset().count(y) > 0);
        let q = choose|q: int| 0 <= q < s.len() && s[q] == y;
        assert(t[p].index <= t[n].index);
        assert(s[q].index <= s[n].index);
        if q < n {
            assert(s[q].index != s[n].index);
        }
        assert(x == y);
        let s1 = s.remove(n);
        let t1 = t.remove(n);
        assert(s1 =~= s.drop_last());
        assert(t1 =~= t.drop_last());
        assert(s1.to_multiset() == t1.to_multiset());
        lemma_sorted_unique(s1, t1);
        assert(s =~= s1.push(x));
        assert(t =~= t1.push(y));
    }
}

/// The order in which the chunks arrive does not matter: any reordering of
/// chunks with distinct indices is sorted into the same sequence, and so
/// merged into the same HTML.  (The chunks parsed on any number of threads
/// give the same document.)
pub proof fn lemma_sort_ignores_arrival_order(a: Seq<ParsedChunk>, b: Seq<ParsedChunk>)
    requires
        a.to_multiset() == b.to_multiset(),
        has_distinct_indices(a),
    ensures
        sort_by_index(a) == sort_by_index(b),
        combined_html(a) == combined_html(b),
{
    lemma_sort_by_index(a);
    lemma_sort_by_index(b);
    lemma_distinct_transfer(a, sort_by_index(a));
    lemma_sorted_unique(sort_by_index(a), sort_by_index(b));
}

/// The HTML of a document cut into chunks of `size` lines: the HTML of each
/// chunk, in document order, the leading empty ones left out, joined with
/// newlines.
pub open spec fn document_html(markdown: Seq<char>, size: nat) -> Seq<char> {
    let contents = chunk_contents(markdown, size);
    join(
        skip_leading_empty(Seq::new(contents.len(), |k: int| chunk_html(contents[k]).unwrap())),
        newline(),
    )
}

/// Chunks as `chunk_by_lines` makes them, each parsed as `parse_chunk`
/// parses it, arriving in any order, are merged into the document's HTML.
pub proof fn lemma_document_html(markdown: Seq<char>, size: nat, parsed: Seq<ParsedChunk>, arrived: Seq<ParsedChunk>)
    requires
        parsed.len() == chunk_contents(markdown, size).len(),
        forall|k: int|
            0 <= k < parsed.len() ==> (#[trigger] parsed[k]).index == k && chunk_html(
                chunk_contents(markdown, size)[k],
            ) == Some(parsed[k].html@),
        arrived.to_multiset() == parsed.to_multiset(),
    ensures
        combined_html(arrived) == document_html(markdown, size),
{
    let contents = chunk_contents(markdown, size);
    assert(has_distinct_indices(parsed));
    lemma_sort_ignores_arrival_order(parsed, arrived);
    lemma_merged_html(parsed);
    assert(htmls_of(parsed) =~= Seq::new(contents.len(), |k: int| chunk_html(contents[k]).unwrap()));
}

// ---------------------------------------------------------------------
// Executable combination
// ---------------------------------------------------------------------

/// Sort the chunks by index (stable).
pub fn sort_chunks_by_index(parsed: Vec<ParsedChunk>) -> (r: Vec<ParsedChunk>)
    ensures
        r@ == sort_by_index(parsed@),
{
    let ghost all = parsed@;
    let n = parsed.len();
    assert(all.len() == n);
    let mut rest = parsed;
    let mut sorted: Vec<ParsedChunk> = Vec::new();
    let mut taken: usize = 0;
    while rest.len() > 0
        invariant
            taken + rest@.len() == all.len(),
            all.len() <= usize::MAX,
            rest@ == all.skip(taken as int),
            sorted@ == sort_by_index(all.take(taken as int)),
        decreases rest.len(),
    {
        let x = rest.remove(0);
        let ghost before = sorted@;
        let mut k = sorted.len();
        assert(before.take(k as int) =~= before);
        assert(before.skip(k as int) =~= Seq::<ParsedChunk>::empty());
        while k > 0 && sorted[k - 1].index > x.index
            invariant
                k <= sorted.len(),
                sorted@ == before,
                insert_by_index(before, x) == insert_by_index(before.take(k as int), x) + before.skip(
                    k as int,
                ),
            decreases k,
        {
            proof {
                let t = before.take(k as int);
                assert(t.drop_last() =~= before.take(k - 1));
                assert(t.last() == before[k - 1]);
                assert(before.skip(k - 1) =~= seq![before[k - 1]] + before.skip(k as int));
                assert(insert_by_index(t, x) == insert_by_index(before.take(k - 1), x).push(before[k - 1]));
                assert(insert_by_index(before.take(k - 1), x).push(before[k - 1]) + before.skip(k as int)
                    =~= insert_by_index(before.take(k - 1), x) + before.skip(k - 1));
            }
            k -= 1;
        }
        proof {
            let t = before.take(k as int);
            assert(insert_by_index(t, x) == t.push(x));
        }
        sorted.insert(k, x);
        proof {
            assert(sorted@ =~= before.take(k as int).push(x) + before.skip(k as int));
            assert(all.take(taken + 1).drop_last() =~= all.take(taken as int));
            assert(all.take(taken + 1).last() == x);
        }
        taken += 1;
        assert(rest@ =~= all.skip(taken as int));
    }
    assert(all.take(taken as int) =~= all);
    sorted
}

/// Put the HTML of the chunks together: in order of index, joined with
/// newlines (a newline goes before a piece only when the output so far is
/// not empty).
pub fn merge_parsed_chunks(parsed: Vec<ParsedChunk>) -> (r: String)
    ensures
        r@ == combined_html(parsed@),
{
    let sorted = sort_chunks_by_index(parsed);
    let ghost hs = htmls_of(sorted@);
    let mut acc: Vec<char> = Vec::new();
    let mut i: usize = 0;
    while i < sorted.len()
        invariant
            i <= sorted.len(),
            hs == htmls_of(sorted@),
            acc@ == fold_html(hs.take(i as int)),
        decreases sorted.len() - i,
    {
        assert(hs.take(i + 1).drop_last() =~= hs.take(i as int));
        let ghost before = acc@;
        if acc.len() > 0 {
            acc.push('\n');
        }
        let html = str_to_chars(sorted[i].html.as_str());
        push_all(&mut acc, &html);
        i += 1;
    }
    assert(hs.take(sorted.len() as int) =~= hs);
    chars_to_string(&acc)
}

} // verus!
