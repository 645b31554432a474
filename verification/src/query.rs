//! The query/paging engine: validation of paging and search parameters,
//! the page-slice semantics (`LIMIT size OFFSET size * (page - 1)`), and the
//! proof that paging through a result set visits every element exactly once.

use vstd::prelude::*;
use crate::model::{DocMeta, PdfSearchDto, SearchMeta, opt_int_view};
use crate::text::contains_ci;

verus! {

/// The smaller of two integers.
pub open spec fn min_i(a: int, b: int) -> int {
    if a <= b {
        a
    } else {
        b
    }
}

/// Paging is valid when both fields are present and positive.
pub open spec fn paging_valid(page: Option<int>, size: Option<int>) -> bool {
    match (page, size) {
        (Some(p), Some(s)) => p >= 1 && s >= 1,
        _ => false,
    }
}

/// Decides paging validity.
pub fn check_paging(page: Option<i32>, size: Option<i32>) -> (b: bool)
    ensures
        b == paging_valid(opt_int_view(page), opt_int_view(size)),
{
    match (page, size) {
        (Some(p), Some(s)) => p >= 1 && s >= 1,
        _ => false,
    }
}

/// The value of a present parameter.
pub open spec fn opt_val(o: Option<int>) -> int {
    match o {
        Some(v) => v,
        None => 0,
    }
}

/// A search is valid when its paging is valid and at least one filter
/// field is present.
pub open spec fn search_valid(q: SearchMeta) -> bool {
    &&& paging_valid(q.page, q.size)
    &&& (q.title is Some || q.author is Some || q.tag is Some)
}

/// Decides search validity.
pub fn check_search(s: &PdfSearchDto) -> (b: bool)
    ensures
        b == search_valid(s@),
{
    check_paging(s.page, s.size) && (s.title.is_some() || s.author.is_some() || s.tag.is_some())
}

/// An absent filter always holds; a present one requires the field to be
/// present and to contain the query, ignoring ASCII case.
pub open spec fn field_matches(f: Option<Seq<char>>, q: Option<Seq<char>>) -> bool {
    match q {
        None => true,
        Some(qs) => match f {
            Some(fs) => contains_ci(fs, qs),
            None => false,
        },
    }
}

/// An absent tag filter always holds; a present one requires some relation
/// of the document whose tag name contains the query, ignoring ASCII case.
pub open spec fn tag_matches(rels: Seq<(int, Seq<char>)>, id: int, q: Option<Seq<char>>) -> bool {
    match q {
        None => true,
        Some(qs) => exists|k: int|
            0 <= k < rels.len() && (#[trigger] rels[k]).0 == id && contains_ci(rels[k].1, qs),
    }
}

/// The search predicate: all present filters must hold, combined with AND.
pub open spec fn doc_matches(rels: Seq<(int, Seq<char>)>, q: SearchMeta) -> spec_fn(DocMeta) -> bool {
    |d: DocMeta|
        field_matches(d.title, q.title) && field_matches(d.author, q.author) && tag_matches(
            rels,
            d.id,
            q.tag,
        )
}

/// The documents a search matches, in creation order, each once.
pub open spec fn search_results(
    docs: Seq<DocMeta>,
    rels: Seq<(int, Seq<char>)>,
    q: SearchMeta,
) -> Seq<DocMeta> {
    docs.filter(doc_matches(rels, q))
}

/// The offset of a 1-based page.
pub open spec fn page_offset(page: int, size: int) -> int {
    size * (page - 1)
}

/// The elements of the given 1-based page: `size` of them from the page's
/// offset, or fewer on the last page, or none past the end.
pub open spec fn page_slice<A>(s: Seq<A>, page: int, size: int) -> Seq<A> {
    let off = page_offset(page, size);
    if off >= s.len() {
        Seq::<A>::empty()
    } else {
        s.subrange(off, min_i(off + size, s.len() as int))
    }
}

/// The number of pages needed to hold `n` elements, `size` per page.
pub open spec fn page_count(n: int, size: int) -> int {
    (n + size - 1) / size
}

/// Pages 1 through `p`, concatenated in order.
pub open spec fn pages_concat<A>(s: Seq<A>, size: int, p: int) -> Seq<A>
    decreases p,
{
    if p <= 0 {
        Seq::<A>::empty()
    } else {
        pages_concat(s, size, p - 1) + page_slice(s, p, size)
    }
}

/// The summed lengths of pages 1 through `p`.
pub open spec fn pages_len_sum<A>(s: Seq<A>, size: int, p: int) -> int
    decreases p,
{
    if p <= 0 {
        0
    } else {
        pages_len_sum(s, size, p - 1) + page_slice(s, p, size).len()
    }
}

proof fn lemma_pages_concat_prefix<A>(s: Seq<A>, size: int, p: int)
    requires
        size >= 1,
        p >= 0,
    ensures
        pages_concat(s, size, p) == s.subrange(0, min_i(size * p, s.len() as int)),
        pages_len_sum(s, size, p) == min_i(size * p, s.len() as int),
    decreases p,
{
    let n = s.len() as int;
    if p == 0 {
        assert(size * 0 == 0) by (nonlinear_arith);
        assert(s.subrange(0, 0) =~= Seq::<A>::empty());
    } else {
        lemma_pages_concat_prefix(s, size, p - 1);
        let off = page_offset(p, size);
        assert(size * p == off + size) by (nonlinear_arith)
            requires
                off == size * (p - 1),
        ;
        assert(off >= 0 && size * p >= size * (p - 1)) by (nonlinear_arith)
            requires
                size >= 1 && p >= 1 && off == size * (p - 1),
        ;
        if off >= n {
            assert(min_i(size * (p - 1), n) == n);
            assert(pages_concat(s, size, p) =~= pages_concat(s, size, p - 1));
            assert(s.subrange(0, n) == s.subrange(0, min_i(size * p, n)));
        } else {
            assert(min_i(size * (p - 1), n) == off);
            assert(min_i(size * p, n) == min_i(off + size, n));
            assert(s.subrange(0, off) + s.subrange(off, min_i(off + size, n)) =~= s.subrange(
                0,
                min_i(off + size, n),
            ));
        }
    }
}

/// Paging covers the whole result set: with any page size, pages 1 through
/// `page_count` concatenate, in order, to exactly the result sequence — so
/// summing the page lengths gives exactly the total, and each element
/// appears exactly once across the traversal.
pub proof fn lemma_pagination_total<A>(s: Seq<A>, size: int)
    requires
        size >= 1,
    ensures
        pages_concat(s, size, page_count(s.len() as int, size)) == s,
        pages_len_sum(s, size, page_count(s.len() as int, size)) == s.len(),
{
    let n = s.len() as int;
    let pc = page_count(n, size);
    assert(pc >= 0 && size * pc >= n) by (nonlinear_arith)
        requires
            size >= 1 && n >= 0 && pc == (n + size - 1) / size,
    ;
    lemma_pages_concat_prefix(s, size, pc);
    assert(s.subrange(0, n) =~= s);
}

/// A page past the last one is empty: beyond `page_count` pages there is
/// nothing more to retrieve.
pub proof fn lemma_page_past_end_empty<A>(s: Seq<A>, size: int, page: int)
    requires
        size >= 1,
        page > page_count(s.len() as int, size),
    ensures
        page_slice(s, page, size) == Seq::<A>::empty(),
{
    let n = s.len() as int;
    assert(size * (page - 1) >= n) by (nonlinear_arith)
        requires
            size >= 1 && n >= 0 && page - 1 >= (n + size - 1) / size,
    ;
}

} // verus!
