//! The relational store: document rows, tag rows and document–tag
//! relations, with the invariants the schema enforces — unique identifiers,
//! unique file names, unique tag names, no duplicate relations, and rows
//! kept in creation order (creation time, then identifier).

use vstd::prelude::*;
use crate::model::{
    DocMeta, Pdf, PdfError, PdfOverview, PdfMetadataDto, PdfSearchDto, PdfUpdate, PagingDto,
    PdfOverviewDto, UpdateMeta, clone_opt_string, metadata_of, opt_int_view, overview_of,
    requested_tags, update_fields,
};
use crate::model::{OverviewMeta, overview_views, overviews_of};
use crate::query::{
    check_paging, check_search, doc_matches, field_matches, min_i, opt_val, page_offset,
    page_slice, paging_valid,
    search_results, search_valid, tag_matches,
};
use crate::seqs::{
    lemma_filter_all, lemma_filter_app, lemma_filter_no_duplicates, lemma_filter_none,
    lemma_filter_push, lemma_filter_subset,
};
use crate::text::str_contains_ci;
use vstd::pervasive::VecAdditionalExecFns;

verus! {

/// The row an upload commits.
pub open spec fn new_doc(
    title: Seq<char>,
    filename: Seq<char>,
    author: Option<Seq<char>>,
    pages: Option<int>,
    img: Seq<char>,
    id: int,
    now: int,
) -> DocMeta {
    DocMeta {
        id: id,
        title: Some(title),
        file_name: filename,
        author: author,
        pages: pages,
        comments: None,
        time_added: now,
        last_accessed: None,
        picture: Some(img),
    }
}

/// The page of listing rows that `LIMIT size OFFSET size * (page - 1)`
/// retrieves.
fn slice_overviews(v: &Vec<PdfOverview>, page: i32, size: i32) -> (out: Vec<PdfOverview>)
    requires
        page >= 1,
        size >= 1,
        v@.len() < i64::MAX,
    ensures
        overview_views(out@) == page_slice(overview_views(v@), page as int, size as int),
{
    proof {
        assert(0 <= (size as int) * (page as int - 1) < 0x4000_0000_0000_0000) by (nonlinear_arith)
            requires
                1 <= size < 0x8000_0000 && 1 <= page < 0x8000_0000,
        ;
    }
    let len = v.len();
    let off_i: i64 = (size as i64) * ((page as i64) - 1);
    let mut out: Vec<PdfOverview> = Vec::new();
    if off_i >= len as i64 {
        proof {
            assert(overview_views(out@) =~= Seq::<OverviewMeta>::empty());
        }
        return out;
    }
    let off = off_i as usize;
    let avail = len - off;
    let size_us = size as usize;
    let take = if size_us <= avail {
        size_us
    } else {
        avail
    };
    let end = off + take;
    let mut k = off;
    proof {
        assert(overview_views(out@) =~= overview_views(v@).subrange(off as int, off as int));
    }
    while k < end
        invariant
            off <= k <= end <= len,
            len == v@.len(),
            overview_views(out@) == overview_views(v@).subrange(off as int, k as int),
        decreases end - k,
    {
        let ghost before = overview_views(out@);
        out.push(v[k].clone());
        proof {
            assert(overview_views(out@) =~= before.push(v@[k as int]@));
            assert(overview_views(v@).subrange(off as int, k + 1) =~= overview_views(v@).subrange(
                off as int,
                k as int,
            ).push(v@[k as int]@));
        }
        k += 1;
    }
    proof {
        assert(page_offset(page as int, size as int) == off as int);
        assert(min_i(off as int + size as int, v@.len() as int) == end as int);
        assert(overview_views(v@).subrange(off as int, end as int) == page_slice(
            overview_views(v@),
            page as int,
            size as int,
        ));
    }
    out
}

/// Whether a name occurs in a list of names.
fn vec_contains_string(v: &Vec<String>, s: &String) -> (b: bool)
    ensures
        b == v.deep_view().contains(s@),
{
    let mut i: usize = 0;
    while i < v.len()
        invariant
            i <= v@.len(),
            forall|k: int| 0 <= k < i ==> v.deep_view()[k] != s@,
        decreases v@.len() - i,
    {
        if v[i].eq(s) {
            proof {
                assert(v.deep_view()[i as int] == s@);
            }
            return true;
        }
        i += 1;
    }
    false
}

/// Drops later repetitions of each name, keeping request order.
fn dedup_strings(req: &Vec<String>) -> (out: Vec<String>)
    ensures
        out.deep_view() == dedup(req.deep_view()),
        out.deep_view().no_duplicates(),
{
    let mut out: Vec<String> = Vec::new();
    let mut i: usize = 0;
    proof {
        assert(req.deep_view().subrange(0, 0) =~= Seq::<Seq<char>>::empty());
        assert(out.deep_view() =~= dedup(req.deep_view().subrange(0, 0)));
    }
    while i < req.len()
        invariant
            i <= req@.len(),
            req@.len() == req.deep_view().len(),
            out.deep_view() == dedup(req.deep_view().subrange(0, i as int)),
        decreases req@.len() - i,
    {
        let ghost prefix = req.deep_view().subrange(0, i as int);
        let ghost x = req.deep_view()[i as int];
        let ghost before = out.deep_view();
        proof {
            lemma_dedup(prefix);
            assert(req.deep_view().subrange(0, i + 1) =~= prefix.push(x));
            assert(prefix.push(x).drop_last() =~= prefix);
        }
        if !vec_contains_string(&out, &req[i]) {
            out.push(req[i].clone());
            proof {
                assert(out.deep_view() =~= before.push(x));
            }
        }
        proof {
            assert(out.deep_view() == dedup(req.deep_view().subrange(0, i + 1)));
        }
        i += 1;
    }
    proof {
        assert(req.deep_view().subrange(0, req.deep_view().len() as int) =~= req.deep_view());
        lemma_dedup(req.deep_view());
    }
    out
}

/// Appends, in request order, every requested name that is not yet a tag
/// row; existing names are never inserted again.
fn push_missing_tags(tags: &mut Vec<String>, deduped: &Vec<String>)
    requires
        old(tags).deep_view().no_duplicates(),
        deduped.deep_view().no_duplicates(),
    ensures
        final(tags).deep_view() == old(tags).deep_view() + deduped.deep_view().filter(
            tag_missing_from(old(tags).deep_view()),
        ),
        final(tags).deep_view().no_duplicates(),
{
    let ghost base = tags.deep_view();
    let ghost pred = tag_missing_from(base);
    let ghost dd = deduped.deep_view();
    let mut k: usize = 0;
    proof {
        assert(dd.subrange(0, 0) =~= Seq::<Seq<char>>::empty());
        lemma_filter_none(Seq::<Seq<char>>::empty(), pred);
        assert(tags.deep_view() =~= base + dd.subrange(0, 0).filter(pred));
    }
    while k < deduped.len()
        invariant
            k <= dd.len(),
            dd == deduped.deep_view(),
            dd.len() == deduped@.len(),
            dd.no_duplicates(),
            base.no_duplicates(),
            pred == tag_missing_from(base),
            tags.deep_view() == base + dd.subrange(0, k as int).filter(pred),
            tags.deep_view().no_duplicates(),
        decreases dd.len() - k,
    {
        let ghost x = dd[k as int];
        let ghost appended = dd.subrange(0, k as int).filter(pred);
        let ghost before = tags.deep_view();
        proof {
            assert(dd.subrange(0, k + 1) =~= dd.subrange(0, k as int).push(x));
            lemma_filter_push(dd.subrange(0, k as int), pred, x);
            // the current tag list contains x exactly when the original one did:
            // the appended names all come from earlier request positions, and the
            // request list is duplicate-free.
            assert(!appended.contains(x)) by {
                if appended.contains(x) {
                    lemma_filter_subset(dd.subrange(0, k as int), pred, x);
                    let w = choose|w: int|
                        0 <= w < dd.subrange(0, k as int).len() && dd.subrange(0, k as int)[w]
                            == x;
                    assert(dd[w] == dd[k as int]);
                }
            }
            assert(forall|t: Seq<char>|
                #[trigger] before.contains(t) ==> base.contains(t) || appended.contains(t)) by {
                assert forall|t: Seq<char>| #[trigger] before.contains(t) implies base.contains(t)
                    || appended.contains(t) by {
                    let w = choose|w: int| 0 <= w < before.len() && before[w] == t;
                    if w < base.len() {
                        assert(base[w] == t);
                    } else {
                        assert(appended[w - base.len()] == t);
                    }
                }
            }
            assert(forall|t: Seq<char>| #[trigger] base.contains(t) ==> before.contains(t)) by {
                assert forall|t: Seq<char>| #[trigger] base.contains(t) implies before.contains(
                    t,
                ) by {
                    let w = choose|w: int| 0 <= w < base.len() && base[w] == t;
                    assert(before[w] == t);
                }
            }
        }
        if !vec_contains_string(tags, &deduped[k]) {
            tags.push(deduped[k].clone());
            proof {
                assert(tags.deep_view() =~= before.push(x));
                assert(!base.contains(x));
                assert(pred(x));
                assert(tags.deep_view() =~= base + dd.subrange(0, k + 1).filter(pred));
                assert(tags.deep_view().no_duplicates()) by {
                    let cur = tags.deep_view();
                    assert forall|a: int, b: int| 0 <= a < b < cur.len() implies cur[a] != cur[b] by {
                        if b == cur.len() - 1 {
                            assert(cur[a] == before[a]);
                            if before[a] == x {
                                assert(before.contains(x));
                            }
                        } else {
                            assert(cur[a] == before[a] && cur[b] == before[b]);
                        }
                    }
                }
            }
        } else {
            proof {
                assert(before.contains(x));
                assert(base.contains(x));
                assert(!pred(x));
                assert(tags.deep_view() =~= base + dd.subrange(0, k + 1).filter(pred));
            }
        }
        k += 1;
    }
    proof {
        assert(dd.subrange(0, dd.len() as int) =~= dd);
    }
}

/// One document–tag relation row.
pub struct Relation {
    pub id: u128,
    pub name: String,
}

impl View for Relation {
    type V = (int, Seq<char>);

    open spec fn view(&self) -> (int, Seq<char>) {
        (self.id as int, self.name@)
    }
}

/// The relation rows of every other document, in table order.
fn rels_without(rels: &Vec<Relation>, pdf_id: u128) -> (out: Vec<Relation>)
    ensures
        rel_views(out@) == rel_views(rels@).filter(rel_not_for(pdf_id as int)),
{
    let ghost pred = rel_not_for(pdf_id as int);
    let mut out: Vec<Relation> = Vec::new();
    let mut i: usize = 0;
    proof {
        assert(rel_views(rels@).subrange(0, 0) =~= Seq::<(int, Seq<char>)>::empty());
        lemma_filter_none(Seq::<(int, Seq<char>)>::empty(), pred);
        assert(rel_views(out@) =~= rel_views(rels@).subrange(0, 0).filter(pred));
    }
    while i < rels.len()
        invariant
            i <= rels@.len(),
            rels@.len() == rel_views(rels@).len(),
            pred == rel_not_for(pdf_id as int),
            rel_views(out@) == rel_views(rels@).subrange(0, i as int).filter(pred),
        decreases rels@.len() - i,
    {
        let ghost prefix = rel_views(rels@).subrange(0, i as int);
        let ghost r = rel_views(rels@)[i as int];
        let ghost before = rel_views(out@);
        if rels[i].id != pdf_id {
            out.push(Relation { id: rels[i].id, name: rels[i].name.clone() });
            proof {
                assert(rel_views(out@) =~= before.push(r));
            }
        }
        proof {
            assert(rel_views(rels@).subrange(0, i + 1) =~= prefix.push(r));
            lemma_filter_push(prefix, pred, r);
            if pred(r) {
                assert(rel_views(out@) =~= prefix.filter(pred) + seq![r]);
            } else {
                assert(rel_views(out@) =~= prefix.filter(pred) + Seq::<(int, Seq<char>)>::empty());
            }
            assert(rel_views(out@) == rel_views(rels@).subrange(0, i + 1).filter(pred));
        }
        i += 1;
    }
    proof {
        assert(rel_views(rels@).subrange(0, rel_views(rels@).len() as int) =~= rel_views(rels@));
    }
    out
}

/// Appends one relation row per requested name.
fn push_rel_pairs(rels: &mut Vec<Relation>, pdf_id: u128, deduped: &Vec<String>)
    ensures
        rel_views(final(rels)@) == rel_views(old(rels)@) + deduped.deep_view().map_values(
            pair_for(pdf_id as int),
        ),
{
    let ghost base = rel_views(rels@);
    let ghost dd = deduped.deep_view();
    let mut k: usize = 0;
    proof {
        assert(rel_views(rels@) =~= base + dd.subrange(0, 0).map_values(pair_for(pdf_id as int)));
    }
    while k < deduped.len()
        invariant
            k <= dd.len(),
            dd == deduped.deep_view(),
            dd.len() == deduped@.len(),
            rel_views(rels@) == base + dd.subrange(0, k as int).map_values(pair_for(pdf_id as int)),
        decreases dd.len() - k,
    {
        let ghost before = rel_views(rels@);
        rels.push(Relation { id: pdf_id, name: deduped[k].clone() });
        proof {
            assert(rel_views(rels@) =~= before.push((pdf_id as int, dd[k as int])));
            assert(dd.subrange(0, k + 1).map_values(pair_for(pdf_id as int)) =~= dd.subrange(
                0,
                k as int,
            ).map_values(pair_for(pdf_id as int)).push((pdf_id as int, dd[k as int])));
            assert(rel_views(rels@) =~= base + dd.subrange(0, k + 1).map_values(
                pair_for(pdf_id as int),
            ));
        }
        k += 1;
    }
    proof {
        assert(dd.subrange(0, dd.len() as int) =~= dd);
    }
}

/// Ghost-level image of the whole relational store.
pub ghost struct StoreModel {
    pub docs: Seq<DocMeta>,
    pub tags: Seq<Seq<char>>,
    pub rels: Seq<(int, Seq<char>)>,
}

/// Strict creation order: creation time, then identifier.
pub open spec fn key_lt(a: DocMeta, b: DocMeta) -> bool {
    a.time_added < b.time_added || (a.time_added == b.time_added && a.id < b.id)
}

/// The first row with the given identifier, if any.
pub open spec fn find_doc(docs: Seq<DocMeta>, id: int) -> Option<DocMeta>
    decreases docs.len(),
{
    if docs.len() == 0 {
        None
    } else if docs[0].id == id {
        Some(docs[0])
    } else {
        find_doc(docs.drop_first(), id)
    }
}

/// Some row carries the given identifier.
pub open spec fn exists_doc(docs: Seq<DocMeta>, id: int) -> bool {
    exists|i: int| 0 <= i < docs.len() && docs[i].id == id
}

/// Some row stores its blob under the given name.
pub open spec fn exists_file_name(docs: Seq<DocMeta>, name: Seq<char>) -> bool {
    exists|i: int| 0 <= i < docs.len() && docs[i].file_name == name
}

/// Characterises `find_doc` by the index of the first matching row.
pub proof fn lemma_find_doc_at(docs: Seq<DocMeta>, id: int, i: int)
    requires
        0 <= i <= docs.len(),
        forall|k: int| 0 <= k < i ==> docs[k].id != id,
        i < docs.len() ==> docs[i].id == id,
    ensures
        find_doc(docs, id) == if i < docs.len() {
            Some(docs[i])
        } else {
            Option::<DocMeta>::None
        },
    decreases i,
{
    if i == 0 {
        if docs.len() == 0 {
        } else if docs[0].id == id {
        } else {
            lemma_find_doc_at(docs.drop_first(), id, 0);
            assert(forall|k: int|
                0 <= k < docs.drop_first().len() ==> docs.drop_first()[k] == docs[k + 1]);
        }
    } else {
        lemma_find_doc_at(docs.drop_first(), id, i - 1);
        assert(forall|k: int|
            0 <= k < docs.drop_first().len() ==> docs.drop_first()[k] == docs[k + 1]);
    }
}

/// A relation row belongs to the given document.
pub open spec fn rel_for(id: int) -> spec_fn((int, Seq<char>)) -> bool {
    |r: (int, Seq<char>)| r.0 == id
}

/// A relation row belongs to some other document.
pub open spec fn rel_not_for(id: int) -> spec_fn((int, Seq<char>)) -> bool {
    |r: (int, Seq<char>)| r.0 != id
}

/// A document row carries some other identifier.
pub open spec fn doc_not(id: int) -> spec_fn(DocMeta) -> bool {
    |d: DocMeta| d.id != id
}

/// A tag name that is not yet a tag row.
pub open spec fn tag_missing_from(tags: Seq<Seq<char>>) -> spec_fn(Seq<char>) -> bool {
    |t: Seq<char>| !tags.contains(t)
}

/// The name of a relation row.
pub open spec fn rel_name() -> spec_fn((int, Seq<char>)) -> Seq<char> {
    |r: (int, Seq<char>)| r.1
}

/// The relation row for a tag name of the given document.
pub open spec fn pair_for(id: int) -> spec_fn(Seq<char>) -> (int, Seq<char>) {
    |t: Seq<char>| (id, t)
}

/// The ghost images of a vector of document rows.
pub open spec fn doc_views(v: Seq<Pdf>) -> Seq<DocMeta> {
    v.map_values(|p: Pdf| p@)
}

/// The ghost images of a vector of relation rows.
pub open spec fn rel_views(v: Seq<Relation>) -> Seq<(int, Seq<char>)> {
    v.map_values(|r: Relation| r@)
}

/// The document table with the row of the given identifier removed; the
/// table itself when the identifier is absent.
pub open spec fn remove_doc(docs: Seq<DocMeta>, id: int) -> Seq<DocMeta>
    decreases docs.len(),
{
    if docs.len() == 0 {
        docs
    } else if docs[0].id == id {
        docs.drop_first()
    } else {
        seq![docs[0]] + remove_doc(docs.drop_first(), id)
    }
}

/// Characterises `remove_doc` by the index of the first matching row.
pub proof fn lemma_remove_doc_at(docs: Seq<DocMeta>, id: int, i: int)
    requires
        0 <= i <= docs.len(),
        forall|k: int| 0 <= k < i ==> docs[k].id != id,
        i < docs.len() ==> docs[i].id == id,
    ensures
        remove_doc(docs, id) == if i < docs.len() {
            docs.remove(i)
        } else {
            docs
        },
    decreases i,
{
    if i == 0 {
        if docs.len() == 0 {
        } else if docs[0].id == id {
            assert(docs.remove(0) =~= docs.drop_first());
        } else {
        }
    } else {
        lemma_remove_doc_at(docs.drop_first(), id, i - 1);
        assert(forall|k: int|
            0 <= k < docs.drop_first().len() ==> docs.drop_first()[k] == docs[k + 1]);
        if i < docs.len() {
            assert(docs.drop_first()[i - 1].id == id);
            assert(remove_doc(docs, id) == seq![docs[0]] + docs.drop_first().remove(i - 1));
            assert(seq![docs[0]] + docs.drop_first().remove(i - 1) =~= docs.remove(i));
        } else {
            assert(seq![docs[0]] + docs.drop_first() =~= docs);
        }
    }
}

/// The tag names related to a document, in relation-table order.
pub open spec fn tags_of(rels: Seq<(int, Seq<char>)>, id: int) -> Seq<Seq<char>> {
    rels.filter(rel_for(id)).map_values(rel_name())
}

/// A name list with later repetitions of a name dropped.
pub open spec fn dedup(s: Seq<Seq<char>>) -> Seq<Seq<char>>
    decreases s.len(),
{
    if s.len() == 0 {
        s
    } else if s.drop_last().contains(s.last()) {
        dedup(s.drop_last())
    } else {
        dedup(s.drop_last()).push(s.last())
    }
}

/// Deduplication produces a duplicate-free list with the same members.
pub proof fn lemma_dedup(s: Seq<Seq<char>>)
    ensures
        dedup(s).no_duplicates(),
        forall|x: Seq<char>| #[trigger] dedup(s).contains(x) ==> s.contains(x),
        forall|x: Seq<char>| #[trigger] s.contains(x) ==> dedup(s).contains(x),
    decreases s.len(),
{
    if s.len() > 0 {
        let sub = s.drop_last();
        lemma_dedup(sub);
        assert(forall|x: Seq<char>| #[trigger] sub.contains(x) ==> s.contains(x)) by {
            assert(forall|k: int| 0 <= k < sub.len() ==> sub[k] == s[k]);
        }
        assert(s.contains(s.last())) by {
            assert(s[s.len() - 1] == s.last());
        }
        assert(forall|x: Seq<char>| #[trigger] s.contains(x) ==> sub.contains(x) || x == s.last())
            by {
            assert(forall|k: int| 0 <= k < s.len() - 1 ==> s[k] == sub[k]);
        }
        if sub.contains(s.last()) {
        } else {
            let d = dedup(sub);
            let d2 = d.push(s.last());
            assert(dedup(s) == d2);
            assert(!d.contains(s.last()));
            assert forall|i: int, j: int| 0 <= i < j < d2.len() implies d2[i] != d2[j] by {
                if j == d2.len() - 1 {
                    assert(d2[i] == d[i]);
                    if d[i] == s.last() {
                        assert(d.contains(s.last()));
                    }
                } else {
                    assert(d2[i] == d[i] && d2[j] == d[j]);
                }
            }
            assert(forall|x: Seq<char>|
                #[trigger] d2.contains(x) ==> d.contains(x) || x == s.last());
            assert(d2.contains(s.last())) by {
                assert(d2[d.len() as int] == s.last());
            }
            assert(forall|x: Seq<char>| #[trigger] d.contains(x) ==> d2.contains(x)) by {
                assert(forall|k: int| 0 <= k < d.len() ==> d2[k] == d[k]);
            }
        }
    }
}

/// The tag table after reconciliation: every requested name that is not
/// yet a row is appended, once, in request order.
pub open spec fn reconciled_tags(tags: Seq<Seq<char>>, req: Seq<Seq<char>>) -> Seq<Seq<char>> {
    tags + dedup(req).filter(tag_missing_from(tags))
}

/// The relation rows an update writes for a document.
pub open spec fn rel_pairs(id: int, req: Seq<Seq<char>>) -> Seq<(int, Seq<char>)> {
    dedup(req).map_values(pair_for(id))
}

/// The relation table after reconciliation: every relation of the document
/// is dropped, and one relation per requested name is written.
pub open spec fn reconciled_rels(
    rels: Seq<(int, Seq<char>)>,
    id: int,
    req: Seq<Seq<char>>,
) -> Seq<(int, Seq<char>)> {
    rels.filter(rel_not_for(id)) + rel_pairs(id, req)
}

/// The document table with the given row's fields replaced.
pub open spec fn docs_updated(docs: Seq<DocMeta>, id: int, u: UpdateMeta) -> Seq<DocMeta> {
    docs.map_values(
        |d: DocMeta|
            if d.id == id {
                update_fields(d, u)
            } else {
                d
            },
    )
}

/// A new row inserted at its creation-order position.
pub open spec fn insert_sorted(docs: Seq<DocMeta>, d: DocMeta) -> Seq<DocMeta>
    decreases docs.len(),
{
    if docs.len() == 0 {
        seq![d]
    } else if key_lt(d, docs[0]) {
        seq![d] + docs
    } else {
        seq![docs[0]] + insert_sorted(docs.drop_first(), d)
    }
}

/// Characterises `insert_sorted` by the insertion index.
pub proof fn lemma_insert_sorted_at(docs: Seq<DocMeta>, d: DocMeta, i: int)
    requires
        0 <= i <= docs.len(),
        forall|k: int| 0 <= k < i ==> !key_lt(d, #[trigger] docs[k]),
        i < docs.len() ==> key_lt(d, docs[i]),
    ensures
        insert_sorted(docs, d) == docs.subrange(0, i) + seq![d] + docs.subrange(
            i,
            docs.len() as int,
        ),
    decreases i,
{
    if i == 0 {
        if docs.len() == 0 {
            assert(insert_sorted(docs, d) =~= docs.subrange(0, 0) + seq![d] + docs.subrange(
                0,
                docs.len() as int,
            ));
        } else {
            assert(key_lt(d, docs[0]));
            assert(seq![d] + docs =~= docs.subrange(0, 0) + seq![d] + docs.subrange(
                0,
                docs.len() as int,
            ));
        }
    } else {
        assert(!key_lt(d, docs[0]));
        lemma_insert_sorted_at(docs.drop_first(), d, i - 1);
        assert(forall|k: int|
            0 <= k < docs.drop_first().len() ==> docs.drop_first()[k] == docs[k + 1]);
        assert(seq![docs[0]] + (docs.drop_first().subrange(0, i - 1) + seq![d]
            + docs.drop_first().subrange(i - 1, docs.drop_first().len() as int)) =~= docs.subrange(
            0,
            i,
        ) + seq![d] + docs.subrange(i, docs.len() as int));
    }
}

/// The whole store is well-formed.
pub open spec fn store_wf(m: StoreModel) -> bool {
    &&& forall|i: int, j: int|
        0 <= i < j < m.docs.len() ==> key_lt(#[trigger] m.docs[i], #[trigger] m.docs[j])
    &&& forall|i: int, j: int|
        0 <= i < j < m.docs.len() ==> (#[trigger] m.docs[i]).id != (#[trigger] m.docs[j]).id
    &&& forall|i: int, j: int|
        0 <= i < j < m.docs.len() ==> (#[trigger] m.docs[i]).file_name != (
        #[trigger] m.docs[j]).file_name
    &&& m.docs.len() < i64::MAX
    &&& m.tags.no_duplicates()
    &&& m.rels.no_duplicates()
    &&& forall|k: int| 0 <= k < m.rels.len() ==> exists_doc(m.docs, (#[trigger] m.rels[k]).0)
    &&& forall|k: int| 0 <= k < m.rels.len() ==> m.tags.contains((#[trigger] m.rels[k]).1)
}

/// Inserting a row adds exactly its identifier to the table.
pub proof fn lemma_insert_sorted_ids(docs: Seq<DocMeta>, d: DocMeta)
    ensures
        insert_sorted(docs, d).len() == docs.len() + 1,
        forall|x: int|
            #[trigger] exists_doc(insert_sorted(docs, d), x) <==> exists_doc(docs, x) || x == d.id,
    decreases docs.len(),
{
    let res = insert_sorted(docs, d);
    if docs.len() == 0 {
        assert(res =~= seq![d]);
        assert forall|x: int| #[trigger] exists_doc(res, x) implies exists_doc(docs, x) || x
            == d.id by {
            let w = choose|w: int| 0 <= w < res.len() && res[w].id == x;
        }
        assert(res[0].id == d.id);
        assert(exists_doc(res, d.id));
    } else if key_lt(d, docs[0]) {
        assert(res == seq![d] + docs);
        assert forall|x: int| #[trigger] exists_doc(res, x) implies exists_doc(docs, x) || x
            == d.id by {
            let w = choose|w: int| 0 <= w < res.len() && res[w].id == x;
            if w > 0 {
                assert(docs[w - 1].id == x);
            }
        }
        assert forall|x: int| exists_doc(docs, x) || x == d.id implies #[trigger] exists_doc(
            res,
            x,
        ) by {
            if exists_doc(docs, x) {
                let w = choose|w: int| 0 <= w < docs.len() && docs[w].id == x;
                assert(res[w + 1].id == x);
            } else {
                assert(res[0].id == x);
            }
        }
    } else {
        let sub = docs.drop_first();
        lemma_insert_sorted_ids(sub, d);
        assert(res == seq![docs[0]] + insert_sorted(sub, d));
        assert forall|x: int| #[trigger] exists_doc(res, x) implies exists_doc(docs, x) || x
            == d.id by {
            let w = choose|w: int| 0 <= w < res.len() && res[w].id == x;
            if w == 0 {
                assert(docs[0].id == x);
            } else {
                assert(insert_sorted(sub, d)[w - 1].id == x);
                assert(exists_doc(insert_sorted(sub, d), x));
                if exists_doc(sub, x) {
                    let v = choose|v: int| 0 <= v < sub.len() && sub[v].id == x;
                    assert(docs[v + 1].id == x);
                }
            }
        }
        assert forall|x: int| exists_doc(docs, x) || x == d.id implies #[trigger] exists_doc(
            res,
            x,
        ) by {
            if exists_doc(docs, x) {
                let w = choose|w: int| 0 <= w < docs.len() && docs[w].id == x;
                if w == 0 {
                    assert(res[0].id == x);
                } else {
                    assert(sub[w - 1].id == x);
                    assert(exists_doc(sub, x));
                    assert(exists_doc(insert_sorted(sub, d), x));
                    let v = choose|v: int|
                        0 <= v < insert_sorted(sub, d).len() && insert_sorted(sub, d)[v].id == x;
                    assert(res[v + 1].id == x);
                }
            } else {
                assert(exists_doc(insert_sorted(sub, d), x));
                let v = choose|v: int|
                    0 <= v < insert_sorted(sub, d).len() && insert_sorted(sub, d)[v].id == x;
                assert(res[v + 1].id == x);
            }
        }
    }
}

/// Law: reconciliation is idempotent. Reconciling a document to the same
/// requested tag set twice in succession leaves exactly the tag table and
/// relation set that one reconciliation leaves — no duplicate rows, no
/// drift.
pub proof fn lemma_reconcile_idempotent(
    tags: Seq<Seq<char>>,
    rels: Seq<(int, Seq<char>)>,
    id: int,
    req: Seq<Seq<char>>,
)
    ensures
        reconciled_tags(reconciled_tags(tags, req), req) == reconciled_tags(tags, req),
        reconciled_rels(reconciled_rels(rels, id, req), id, req) == reconciled_rels(
            rels,
            id,
            req,
        ),
{
    broadcast use vstd::seq_lib::group_filter_ensures;

    lemma_dedup(req);
    let dd = dedup(req);
    let t1 = reconciled_tags(tags, req);
    let missing = tag_missing_from(tags);
    assert forall|k: int| 0 <= k < dd.len() implies t1.contains(#[trigger] dd[k]) by {
        let t = dd[k];
        if tags.contains(t) {
            let w = choose|w: int| 0 <= w < tags.len() && tags[w] == t;
            assert(t1[w] == t);
        } else {
            assert(missing(t));
            assert(dd.filter(missing).contains(t));
            let z = choose|z: int| 0 <= z < dd.filter(missing).len() && dd.filter(missing)[z] == t;
            assert(t1[tags.len() + z] == t);
        }
    }
    assert(forall|k: int| 0 <= k < dd.len() ==> !tag_missing_from(t1)(#[trigger] dd[k]));
    lemma_filter_none(dd, tag_missing_from(t1));
    assert(t1 + dd.filter(tag_missing_from(t1)) =~= t1);

    let kept = rels.filter(rel_not_for(id));
    let pairs = rel_pairs(id, req);
    let r1 = reconciled_rels(rels, id, req);
    lemma_filter_app(kept, pairs, rel_not_for(id));
    lemma_filter_all(kept, rel_not_for(id));
    assert(forall|k: int| 0 <= k < pairs.len() ==> (#[trigger] pairs[k]) == (id, dd[k]));
    assert(forall|k: int| 0 <= k < pairs.len() ==> !rel_not_for(id)(#[trigger] pairs[k]));
    lemma_filter_none(pairs, rel_not_for(id));
    assert(r1.filter(rel_not_for(id)) =~= kept);
    assert(reconciled_rels(r1, id, req) =~= r1);
}

/// Law: tag reuse. Requesting a name that already has a tag row never
/// creates a second row with that name: the reconciled table is
/// duplicate-free whenever the old one is, and it holds exactly the old
/// names together with the requested ones.
pub proof fn lemma_tag_reuse(tags: Seq<Seq<char>>, req: Seq<Seq<char>>)
    requires
        tags.no_duplicates(),
    ensures
        reconciled_tags(tags, req).no_duplicates(),
        forall|t: Seq<char>|
            #[trigger] reconciled_tags(tags, req).contains(t) ==> tags.contains(t) || req.contains(
                t,
            ),
        forall|t: Seq<char>| #[trigger] tags.contains(t) ==> reconciled_tags(tags, req).contains(t),
        forall|t: Seq<char>| #[trigger] req.contains(t) ==> reconciled_tags(tags, req).contains(t),
{
    broadcast use vstd::seq_lib::group_filter_ensures;

    lemma_dedup(req);
    let dd = dedup(req);
    let missing = tag_missing_from(tags);
    let appended = dd.filter(missing);
    let t1 = reconciled_tags(tags, req);
    lemma_filter_no_duplicates(dd, missing);
    assert forall|a: int, b: int| 0 <= a < b < t1.len() implies t1[a] != t1[b] by {
        if a < tags.len() && b >= tags.len() {
            assert(t1[b] == appended[b - tags.len()]);
            assert(missing(appended[b - tags.len()]));
            if tags[a] == t1[b] {
                assert(tags.contains(t1[b]));
            }
        } else if a >= tags.len() {
            assert(t1[a] == appended[a - tags.len()] && t1[b] == appended[b - tags.len()]);
        }
    }
    assert forall|t: Seq<char>| #[trigger] t1.contains(t) implies tags.contains(t)
        || req.contains(t) by {
        let w = choose|w: int| 0 <= w < t1.len() && t1[w] == t;
        if w < tags.len() {
            assert(tags[w] == t);
        } else {
            assert(appended[w - tags.len()] == t);
            assert(appended.contains(t));
            lemma_filter_subset(dd, missing, t);
        }
    }
    assert forall|t: Seq<char>| #[trigger] tags.contains(t) implies t1.contains(t) by {
        let w = choose|w: int| 0 <= w < tags.len() && tags[w] == t;
        assert(t1[w] == t);
    }
    assert forall|t: Seq<char>| #[trigger] req.contains(t) implies t1.contains(t) by {
        assert(dd.contains(t));
        let k = choose|k: int| 0 <= k < dd.len() && dd[k] == t;
        if tags.contains(t) {
            let w = choose|w: int| 0 <= w < tags.len() && tags[w] == t;
            assert(t1[w] == t);
        } else {
            assert(missing(dd[k]));
            assert(appended.contains(t));
            let z = choose|z: int| 0 <= z < appended.len() && appended[z] == t;
            assert(t1[tags.len() + z] == t);
        }
    }
}

/// Law: a deleted document is gone. Once no row carries an identifier, a
/// metadata lookup of that identifier finds nothing — it reports "not
/// found" rather than a data-integrity failure, whatever became of the
/// blob.
pub proof fn lemma_delete_completeness(docs: Seq<DocMeta>, id: int)
    requires
        !exists_doc(docs, id),
    ensures
        find_doc(docs, id) is None,
{
    assert(forall|k: int| 0 <= k < docs.len() ==> docs[k].id != id);
    lemma_find_doc_at(docs, id, docs.len() as int);
}

/// The relational store.
pub struct RelationalStore {
    docs: Vec<Pdf>,
    tags: Vec<String>,
    rels: Vec<Relation>,
}

impl View for RelationalStore {
    type V = StoreModel;

    closed spec fn view(&self) -> StoreModel {
        StoreModel {
            docs: doc_views(self.docs@),
            tags: self.tags.deep_view(),
            rels: rel_views(self.rels@),
        }
    }
}

impl RelationalStore {
    /// Well-formed: the schema's invariants hold.
    pub open spec fn wf(&self) -> bool {
        store_wf(self@)
    }

    /// An empty store.
    pub fn new() -> (r: RelationalStore)
        ensures
            r@.docs == Seq::<DocMeta>::empty(),
            r@.tags == Seq::<Seq<char>>::empty(),
            r@.rels == Seq::<(int, Seq<char>)>::empty(),
            r.wf(),
    {
        let r = RelationalStore { docs: Vec::new(), tags: Vec::new(), rels: Vec::new() };
        proof {
            assert(r@.docs =~= Seq::<DocMeta>::empty());
            assert(r@.tags =~= Seq::<Seq<char>>::empty());
            assert(r@.rels =~= Seq::<(int, Seq<char>)>::empty());
        }
        r
    }

    /// The index of the row with the given identifier, if any.
    fn find_doc_index(&self, pdf_id: u128) -> (r: Option<usize>)
        ensures
            match r {
                Some(i) => i < self@.docs.len() && self@.docs[i as int].id == pdf_id as int
                    && forall|k: int| 0 <= k < i ==> self@.docs[k].id != pdf_id as int,
                None => forall|k: int| 0 <= k < self@.docs.len() ==> self@.docs[k].id != pdf_id as int,
            },
    {
        let mut i: usize = 0;
        while i < self.docs.len()
            invariant
                i <= self@.docs.len(),
                self@.docs.len() == self.docs@.len(),
                forall|k: int| 0 <= k < i ==> self@.docs[k].id != pdf_id as int,
            decreases self@.docs.len() - i,
        {
            if self.docs[i].id == pdf_id {
                return Some(i);
            }
            i += 1;
        }
        None
    }

    /// Whether some row already stores its blob under the given name.
    pub fn has_file_name(&self, name: &String) -> (b: bool)
        ensures
            b == exists_file_name(self@.docs, name@),
    {
        let mut i: usize = 0;
        while i < self.docs.len()
            invariant
                i <= self@.docs.len(),
                self@.docs.len() == self.docs@.len(),
                forall|k: int| 0 <= k < i ==> self@.docs[k].file_name != name@,
            decreases self@.docs.len() - i,
        {
            if self.docs[i].file_name.eq(name) {
                proof {
                    assert(self@.docs[i as int].file_name == name@);
                }
                return true;
            }
            i += 1;
        }
        proof {
            if exists_file_name(self@.docs, name@) {
                let w = choose|w: int|
                    0 <= w < self@.docs.len() && self@.docs[w].file_name == name@;
                assert(false);
            }
        }
        false
    }

    /// The number of document rows.
    pub fn total_number_of_pdfs(&self) -> (r: Result<Option<i64>, PdfError>)
        requires
            self.wf(),
        ensures
            r == Ok::<Option<i64>, PdfError>(Some(self@.docs.len() as i64)),
    {
        Ok(Some(self.docs.len() as i64))
    }

    /// The full metadata row of a document.
    pub fn get_pdf_metadata(&self, pdf_id: u128) -> (r: Result<Pdf, PdfError>)
        requires
            self.wf(),
        ensures
            match r {
                Ok(p) => find_doc(self@.docs, pdf_id as int) == Some(p@),
                Err(e) => e == PdfError::NotFound && find_doc(self@.docs, pdf_id as int) is None,
            },
    {
        match self.find_doc_index(pdf_id) {
            Some(i) => {
                proof {
                    lemma_find_doc_at(self@.docs, pdf_id as int, i as int);
                }
                Ok(self.docs[i].clone())
            },
            None => {
                proof {
                    lemma_find_doc_at(self@.docs, pdf_id as int, self@.docs.len() as int);
                }
                Err(PdfError::NotFound)
            },
        }
    }

    /// The file name under which a document's blob is stored.
    pub fn get_by_id(&self, pdf_id: u128) -> (r: Result<String, PdfError>)
        requires
            self.wf(),
        ensures
            match r {
                Ok(n) => find_doc(self@.docs, pdf_id as int) matches Some(d) && n@ == d.file_name,
                Err(e) => e == PdfError::NotFound && find_doc(self@.docs, pdf_id as int) is None,
            },
    {
        match self.find_doc_index(pdf_id) {
            Some(i) => {
                proof {
                    lemma_find_doc_at(self@.docs, pdf_id as int, i as int);
                }
                Ok(self.docs[i].file_name.clone())
            },
            None => {
                proof {
                    lemma_find_doc_at(self@.docs, pdf_id as int, self@.docs.len() as int);
                }
                Err(PdfError::NotFound)
            },
        }
    }

    /// The listing projection of every row, in creation order.
    fn all_overviews(&self) -> (v: Vec<PdfOverview>)
        ensures
            overview_views(v@) == overviews_of(self@.docs),
    {
        let mut v: Vec<PdfOverview> = Vec::new();
        let mut i: usize = 0;
        proof {
            assert(overview_views(v@) =~= overviews_of(self@.docs.subrange(0, 0)));
        }
        while i < self.docs.len()
            invariant
                i <= self@.docs.len(),
                self@.docs.len() == self.docs@.len(),
                overview_views(v@) == overviews_of(self@.docs.subrange(0, i as int)),
            decreases self@.docs.len() - i,
        {
            let ghost before = overview_views(v@);
            let row = &self.docs[i];
            v.push(
                PdfOverview {
                    id: Some(row.id),
                    title: clone_opt_string(&row.title),
                    picture: clone_opt_string(&row.picture),
                },
            );
            proof {
                assert(overview_views(v@) =~= before.push(overview_of(self@.docs[i as int])));
                assert(overviews_of(self@.docs.subrange(0, i + 1)) =~= overviews_of(
                    self@.docs.subrange(0, i as int),
                ).push(overview_of(self@.docs[i as int])));
            }
            i += 1;
        }
        proof {
            assert(self@.docs.subrange(0, self@.docs.len() as int) =~= self@.docs);
        }
        v
    }

    /// One page of the listing, in creation order. Paging must be present
    /// and positive; otherwise nothing is retrieved and the request is
    /// rejected.
    pub fn get_pdfs_paged(&self, paging: &PagingDto) -> (r: Result<Vec<PdfOverview>, PdfError>)
        requires
            self.wf(),
        ensures
            match r {
                Ok(v) => paging_valid(opt_int_view(paging.page), opt_int_view(paging.size))
                    && overview_views(v@) == page_slice(
                    overviews_of(self@.docs),
                    opt_val(opt_int_view(paging.page)),
                    opt_val(opt_int_view(paging.size)),
                ),
                Err(e) => e == PdfError::ValidationError && !paging_valid(
                    opt_int_view(paging.page),
                    opt_int_view(paging.size),
                ),
            },
    {
        if !check_paging(paging.page, paging.size) {
            return Err(PdfError::ValidationError);
        }
        let page = paging.page.unwrap();
        let size = paging.size.unwrap();
        let all = self.all_overviews();
        proof {
            assert(all@.len() == overview_views(all@).len());
            assert(overviews_of(self@.docs).len() == self@.docs.len());
        }
        let out = slice_overviews(&all, page, size);
        Ok(out)
    }

    /// Whether the document at index `i` matches every present filter of
    /// the search.
    fn doc_match(&self, i: usize, search: &PdfSearchDto) -> (b: bool)
        requires
            i < self@.docs.len(),
        ensures
            b == doc_matches(self@.rels, search@)(self@.docs[i as int]),
    {
        let tmatch = match (&search.title, &self.docs[i].title) {
            (None, _) => true,
            (Some(q), Some(t)) => str_contains_ci(t.as_str(), q.as_str()),
            (Some(_), None) => false,
        };
        proof {
            assert(tmatch == field_matches(self@.docs[i as int].title, search@.title));
        }
        if !tmatch {
            return false;
        }
        let amatch = match (&search.author, &self.docs[i].author) {
            (None, _) => true,
            (Some(q), Some(t)) => str_contains_ci(t.as_str(), q.as_str()),
            (Some(_), None) => false,
        };
        proof {
            assert(amatch == field_matches(self@.docs[i as int].author, search@.author));
        }
        if !amatch {
            return false;
        }
        match &search.tag {
            None => true,
            Some(q) => {
                let ghost id = self@.docs[i as int].id;
                let mut j: usize = 0;
                while j < self.rels.len()
                    invariant
                        j <= self@.rels.len(),
                        self@.rels.len() == self.rels@.len(),
                        i < self@.docs.len(),
                        id == self@.docs[i as int].id,
                        search@.tag == Some(q@),
                        field_matches(self@.docs[i as int].title, search@.title),
                        field_matches(self@.docs[i as int].author, search@.author),
                        forall|k: int|
                            0 <= k < j ==> !((#[trigger] self@.rels[k]).0 == id && crate::text::contains_ci(
                                self@.rels[k].1,
                                q@,
                            )),
                    decreases self@.rels.len() - j,
                {
                    if self.rels[j].id == self.docs[i].id && str_contains_ci(
                        self.rels[j].name.as_str(),
                        q.as_str(),
                    ) {
                        proof {
                            assert((self@.rels[j as int]).0 == id && crate::text::contains_ci(
                                self@.rels[j as int].1,
                                q@,
                            ));
                            assert(tag_matches(self@.rels, id, search@.tag));
                            assert(doc_matches(self@.rels, search@)(self@.docs[i as int]));
                        }
                        return true;
                    }
                    j += 1;
                }
                proof {
                    assert(!tag_matches(self@.rels, id, search@.tag));
                }
                false
            },
        }
    }

    /// Searches the documents: one page of the matching rows, in creation
    /// order, together with the total count of matches — computed over the
    /// same predicate, each matching document counted once.
    pub fn search(&self, search: &PdfSearchDto) -> (r: Result<PdfOverviewDto, PdfError>)
        requires
            self.wf(),
        ensures
            match r {
                Ok(dto) => {
                    let results = search_results(self@.docs, self@.rels, search@);
                    &&& search_valid(search@)
                    &&& dto.count == Some(results.len() as i64)
                    &&& overview_views(dto.pdfs_previews@) == page_slice(
                        overviews_of(results),
                        opt_val(search@.page),
                        opt_val(search@.size),
                    )
                },
                Err(e) => e == PdfError::ValidationError && !search_valid(search@),
            },
    {
        if !check_search(search) {
            return Err(PdfError::ValidationError);
        }
        let ghost pred = doc_matches(self@.rels, search@);
        let mut matched: Vec<PdfOverview> = Vec::new();
        let mut i: usize = 0;
        proof {
            assert(self@.docs.subrange(0, 0) =~= Seq::<DocMeta>::empty());
            lemma_filter_none(Seq::<DocMeta>::empty(), pred);
            assert(overview_views(matched@) =~= overviews_of(
                search_results(self@.docs.subrange(0, 0), self@.rels, search@),
            ));
        }
        while i < self.docs.len()
            invariant
                i <= self@.docs.len(),
                self@.docs.len() == self.docs@.len(),
                pred == doc_matches(self@.rels, search@),
                matched@.len() <= i,
                overview_views(matched@) == overviews_of(
                    search_results(self@.docs.subrange(0, i as int), self@.rels, search@),
                ),
            decreases self@.docs.len() - i,
        {
            let ghost prefix = self@.docs.subrange(0, i as int);
            let ghost d = self@.docs[i as int];
            let ghost before = overview_views(matched@);
            if self.doc_match(i, search) {
                let row = &self.docs[i];
                matched.push(
                    PdfOverview {
                        id: Some(row.id),
                        title: clone_opt_string(&row.title),
                        picture: clone_opt_string(&row.picture),
                    },
                );
            }
            proof {
                assert(self@.docs.subrange(0, i + 1) =~= prefix.push(d));
                lemma_filter_push(prefix, pred, d);
                if pred(d) {
                    assert(overview_views(matched@) =~= before.push(overview_of(d)));
                    assert(prefix.push(d).filter(pred) == prefix.filter(pred) + seq![d]);
                    assert(overviews_of(prefix.push(d).filter(pred)) =~= overviews_of(
                        prefix.filter(pred),
                    ).push(overview_of(d)));
                } else {
                    assert(prefix.push(d).filter(pred) == prefix.filter(pred)
                        + Seq::<DocMeta>::empty());
                    assert(overviews_of(prefix.push(d).filter(pred)) =~= overviews_of(
                        prefix.filter(pred),
                    ));
                }
                assert(overview_views(matched@) == overviews_of(
                    search_results(self@.docs.subrange(0, i + 1), self@.rels, search@),
                ));
            }
            i += 1;
        }
        proof {
            assert(self@.docs.subrange(0, self@.docs.len() as int) =~= self@.docs);
        }
        let count = matched.len() as i64;
        let page = search.page.unwrap();
        let size = search.size.unwrap();
        let out = slice_overviews(&matched, page, size);
        proof {
            let results = search_results(self@.docs, self@.rels, search@);
            assert(matched@.len() == overview_views(matched@).len());
            assert(results.len() == overviews_of(results).len());
        }
        Ok(PdfOverviewDto { pdfs_previews: out, count: Some(count) })
    }

    /// The tag names related to a document, in relation-table order.
    pub fn get_associated_tags_of_pdf(&self, pdf_id: u128) -> (r: Result<Vec<String>, PdfError>)
        requires
            self.wf(),
        ensures
            match r {
                Ok(v) => v.deep_view() == tags_of(self@.rels, pdf_id as int),
                Err(_) => false,
            },
    {
        let mut out: Vec<String> = Vec::new();
        let mut i: usize = 0;
        proof {
            assert(self@.rels.subrange(0, 0) =~= Seq::<(int, Seq<char>)>::empty());
            lemma_filter_none(Seq::<(int, Seq<char>)>::empty(), rel_for(pdf_id as int));
            assert(out.deep_view() =~= tags_of(self@.rels.subrange(0, 0), pdf_id as int));
        }
        while i < self.rels.len()
            invariant
                i <= self@.rels.len(),
                self@.rels.len() == self.rels@.len(),
                out.deep_view() == tags_of(self@.rels.subrange(0, i as int), pdf_id as int),
            decreases self@.rels.len() - i,
        {
            let ghost prefix = self@.rels.subrange(0, i as int);
            let ghost r = self@.rels[i as int];
            let ghost before = out.deep_view();
            if self.rels[i].id == pdf_id {
                out.push(self.rels[i].name.clone());
            }
            proof {
                assert(self@.rels.subrange(0, i + 1) =~= prefix.push(r));
                lemma_filter_push(prefix, rel_for(pdf_id as int), r);
                if r.0 == pdf_id as int {
                    assert(out.deep_view() =~= before.push(r.1));
                    assert(prefix.push(r).filter(rel_for(pdf_id as int)) == prefix.filter(
                        rel_for(pdf_id as int),
                    ) + seq![r]);
                    assert(tags_of(prefix.push(r), pdf_id as int) =~= tags_of(
                        prefix,
                        pdf_id as int,
                    ).push(r.1));
                } else {
                    assert(prefix.push(r).filter(rel_for(pdf_id as int)) == prefix.filter(
                        rel_for(pdf_id as int),
                    ) + Seq::<(int, Seq<char>)>::empty());
                    assert(tags_of(prefix.push(r), pdf_id as int) =~= tags_of(
                        prefix,
                        pdf_id as int,
                    ));
                }
                assert(out.deep_view() == tags_of(self@.rels.subrange(0, i + 1), pdf_id as int));
            }
            i += 1;
        }
        proof {
            assert(self@.rels.subrange(0, self@.rels.len() as int) =~= self@.rels);
        }
        Ok(out)
    }

    /// Inserts a new document row. The blob must already be durable under
    /// `filename`; a row whose file name is already taken is refused with
    /// `Conflict` and the store is left unchanged.
    pub fn upload(
        &mut self,
        title: String,
        filename: String,
        author: Option<String>,
        pages: Option<i32>,
        img: String,
        pdf_id: u128,
        now: i64,
    ) -> (r: Result<Pdf, PdfError>)
        requires
            old(self).wf(),
            !exists_doc(old(self)@.docs, pdf_id as int),
            old(self)@.docs.len() + 1 < i64::MAX,
        ensures
            final(self).wf(),
            exists_file_name(old(self)@.docs, filename@) ==> r == Err::<Pdf, PdfError>(
                PdfError::Conflict,
            ) && final(self)@ == old(self)@,
            !exists_file_name(old(self)@.docs, filename@) ==> {
                let nd = new_doc(
                    title@,
                    filename@,
                    author.deep_view(),
                    opt_int_view(pages),
                    img@,
                    pdf_id as int,
                    now as int,
                );
                &&& r matches Ok(p) && p@ == nd
                &&& final(self)@.docs == insert_sorted(old(self)@.docs, nd)
                &&& final(self)@.tags == old(self)@.tags
                &&& final(self)@.rels == old(self)@.rels
            },
    {
        let mut i: usize = 0;
        while i < self.docs.len()
            invariant
                i <= self@.docs.len(),
                self@.docs.len() == self.docs@.len(),
                self@ == old(self)@,
                self.wf(),
                forall|k: int| 0 <= k < i ==> self@.docs[k].file_name != filename@,
            decreases self@.docs.len() - i,
        {
            if self.docs[i].file_name.eq(&filename) {
                proof {
                    assert(self@.docs[i as int].file_name == filename@);
                    assert(exists_file_name(self@.docs, filename@));
                }
                return Err(PdfError::Conflict);
            }
            i += 1;
        }
        proof {
            if exists_file_name(self@.docs, filename@) {
                let w = choose|w: int|
                    0 <= w < self@.docs.len() && self@.docs[w].file_name == filename@;
                assert(false);
            }
        }
        let row = Pdf {
            id: pdf_id,
            title: Some(title),
            file_name: filename,
            author: author,
            pages: pages,
            comments: None,
            time_added: now,
            last_accessed: None,
            picture: Some(img),
        };
        let result = row.clone();
        let ghost nd = row@;
        let ghost olddocs = self@.docs;
        let mut idx: usize = 0;
        while idx < self.docs.len() && (self.docs[idx].time_added < now || (
        self.docs[idx].time_added == now && self.docs[idx].id < pdf_id))
            invariant
                idx <= self@.docs.len(),
                self@.docs.len() == self.docs@.len(),
                self@.docs == olddocs,
                nd.time_added == now as int,
                nd.id == pdf_id as int,
                forall|k: int| 0 <= k < idx ==> key_lt(#[trigger] self@.docs[k], nd),
            decreases self@.docs.len() - idx,
        {
            idx += 1;
        }
        proof {
            if idx < self@.docs.len() {
                assert(self@.docs[idx as int].id != pdf_id as int);
                assert(key_lt(nd, self@.docs[idx as int]));
            }
            lemma_insert_sorted_at(olddocs, nd, idx as int);
        }
        self.docs.insert(idx, row);
        proof {
            let newdocs = self@.docs;
            assert(newdocs =~= olddocs.subrange(0, idx as int) + seq![nd] + olddocs.subrange(
                idx as int,
                olddocs.len() as int,
            ));
            assert(forall|k: int|
                0 <= k < newdocs.len() ==> newdocs[k] == if k < idx as int {
                    olddocs[k]
                } else if k == idx as int {
                    nd
                } else {
                    olddocs[k - 1]
                });
            assert(forall|k: int| 0 <= k < olddocs.len() ==> olddocs[k].id != pdf_id as int);
            assert forall|a: int, b: int| 0 <= a < b < newdocs.len() implies key_lt(
                #[trigger] newdocs[a],
                #[trigger] newdocs[b],
            ) by {
                if a == idx as int {
                    assert(key_lt(nd, olddocs[b - 1]));
                } else if b == idx as int {
                    assert(key_lt(olddocs[a], nd));
                }
            }
            assert forall|k: int|
                0 <= k < self@.rels.len() implies exists_doc(
                newdocs,
                (#[trigger] self@.rels[k]).0,
            ) by {
                let w = choose|w: int|
                    0 <= w < olddocs.len() && olddocs[w].id == self@.rels[k].0;
                if w < idx as int {
                    assert(newdocs[w] == olddocs[w]);
                } else {
                    assert(newdocs[w + 1] == olddocs[w]);
                }
            }
        }
        Ok(result)
    }

    /// Deletes a document row and all its tag relations, returning the file
    /// name whose blob the caller must remove afterwards. Tag rows are never
    /// deleted.
    pub fn delete(&mut self, pdf_id: u128) -> (r: Result<String, PdfError>)
        requires
            old(self).wf(),
        ensures
            final(self).wf(),
            match r {
                Ok(n) => {
                    &&& find_doc(old(self)@.docs, pdf_id as int) matches Some(d) && n@
                        == d.file_name
                    &&& final(self)@.docs == remove_doc(old(self)@.docs, pdf_id as int)
                    &&& final(self)@.rels == old(self)@.rels.filter(rel_not_for(pdf_id as int))
                    &&& final(self)@.tags == old(self)@.tags
                    &&& !exists_doc(final(self)@.docs, pdf_id as int)
                },
                Err(e) => e == PdfError::NotFound && find_doc(
                    old(self)@.docs,
                    pdf_id as int,
                ) is None && final(self)@ == old(self)@,
            },
    {
        match self.find_doc_index(pdf_id) {
            None => {
                proof {
                    lemma_find_doc_at(self@.docs, pdf_id as int, self@.docs.len() as int);
                }
                Err(PdfError::NotFound)
            },
            Some(i) => {
                proof {
                    lemma_find_doc_at(self@.docs, pdf_id as int, i as int);
                    lemma_remove_doc_at(self@.docs, pdf_id as int, i as int);
                }
                let name = self.docs[i].file_name.clone();
                let ghost olddocs = self@.docs;
                let ghost oldrels = self@.rels;
                let ghost oldtags = self@.tags;
                self.docs.remove(i);
                let kept = rels_without(&self.rels, pdf_id);
                self.rels = kept;
                proof {
                    broadcast use vstd::seq_lib::group_filter_ensures;

                    let newdocs = self@.docs;
                    assert(newdocs =~= olddocs.remove(i as int));
                    assert(forall|k: int|
                        0 <= k < newdocs.len() ==> newdocs[k] == if k < i as int {
                            olddocs[k]
                        } else {
                            olddocs[k + 1]
                        });
                    assert(forall|k: int|
                        0 <= k < newdocs.len() ==> (#[trigger] newdocs[k]).id != pdf_id as int);
                    if exists_doc(newdocs, pdf_id as int) {
                        let w = choose|w: int|
                            0 <= w < newdocs.len() && newdocs[w].id == pdf_id as int;
                        assert(false);
                    }
                    let newrels = self@.rels;
                    assert(newrels == oldrels.filter(rel_not_for(pdf_id as int)));
                    lemma_filter_no_duplicates(oldrels, rel_not_for(pdf_id as int));
                    assert forall|k: int|
                        0 <= k < newrels.len() implies exists_doc(
                        newdocs,
                        (#[trigger] newrels[k]).0,
                    ) && oldtags.contains(newrels[k].1) by {
                        assert(newrels.contains(newrels[k]));
                        lemma_filter_subset(oldrels, rel_not_for(pdf_id as int), newrels[k]);
                        let v = choose|v: int|
                            0 <= v < oldrels.len() && oldrels[v] == newrels[k];
                        assert(exists_doc(olddocs, oldrels[v].0));
                        assert(oldtags.contains(oldrels[v].1));
                        let w = choose|w: int|
                            0 <= w < olddocs.len() && olddocs[w].id == oldrels[v].0;
                        assert(olddocs[w].id != pdf_id as int);
                        if w < i as int {
                            assert(newdocs[w] == olddocs[w]);
                        } else {
                            assert(newdocs[w - 1] == olddocs[w]);
                        }
                    }
                }
                Ok(name)
            },
        }
    }

    /// Updates a document's fields and reconciles its tag set with the
    /// requested one, as one atomic transaction: on any failure nothing is
    /// changed. Every relation of the document is rewritten; requested
    /// names missing from the tag table are inserted, once each; tag rows
    /// are never deleted, even when no relation references them anymore.
    pub fn update(&mut self, update: PdfUpdate, pdf_id: u128) -> (r: Result<
        PdfMetadataDto,
        PdfError,
    >)
        requires
            old(self).wf(),
        ensures
            final(self).wf(),
            match r {
                Ok(dto) => {
                    let req = requested_tags(update@);
                    &&& find_doc(old(self)@.docs, pdf_id as int) matches Some(d) && dto@
                        == metadata_of(update_fields(d, update@), dedup(req))
                    &&& final(self)@.docs == docs_updated(old(self)@.docs, pdf_id as int, update@)
                    &&& final(self)@.tags == reconciled_tags(old(self)@.tags, req)
                    &&& final(self)@.rels == reconciled_rels(old(self)@.rels, pdf_id as int, req)
                },
                Err(e) => e == PdfError::NotFound && find_doc(
                    old(self)@.docs,
                    pdf_id as int,
                ) is None && final(self)@ == old(self)@,
            },
    {
        let ghost u = update@;
        let i = match self.find_doc_index(pdf_id) {
            None => {
                proof {
                    lemma_find_doc_at(self@.docs, pdf_id as int, self@.docs.len() as int);
                }
                return Err(PdfError::NotFound);
            },
            Some(i) => {
                proof {
                    lemma_find_doc_at(self@.docs, pdf_id as int, i as int);
                }
                i
            },
        };
        let PdfUpdate { id: _, title, author, comments, tags, picture } = update;
        let requested: Vec<String> = match tags {
            Some(v) => v,
            None => Vec::new(),
        };
        proof {
            if u.tags is None {
                assert(requested.deep_view() =~= requested_tags(u));
            }
            assert(requested.deep_view() == requested_tags(u));
        }
        let deduped = dedup_strings(&requested);
        let ghost olddocs = self@.docs;
        let ghost oldtags = self@.tags;
        let ghost oldrels = self@.rels;
        push_missing_tags(&mut self.tags, &deduped);
        let kept = rels_without(&self.rels, pdf_id);
        self.rels = kept;
        push_rel_pairs(&mut self.rels, pdf_id, &deduped);
        let oldrow = self.docs[i].clone();
        let newrow = Pdf {
            id: oldrow.id,
            title: title,
            file_name: oldrow.file_name,
            author: author,
            pages: oldrow.pages,
            comments: comments,
            time_added: oldrow.time_added,
            last_accessed: oldrow.last_accessed,
            picture: picture,
        };
        let dto_row = newrow.clone();
        self.docs.set(i, newrow);
        let dto = PdfMetadataDto {
            id: Some(pdf_id),
            title: dto_row.title,
            file_name: dto_row.file_name,
            author: dto_row.author,
            pages: dto_row.pages,
            comments: dto_row.comments,
            uploaded: Some(dto_row.time_added),
            last_accessed: dto_row.last_accessed,
            picture: dto_row.picture,
            tags: Some(deduped),
        };
        proof {
            broadcast use vstd::seq_lib::group_filter_ensures;

            let req = requested_tags(u);
            let dd = dedup(req);
            let newdocs = self@.docs;
            let newtags = self@.tags;
            let newrels = self@.rels;
            let d = olddocs[i as int];
            // the document table: only the addressed row changed, and only in
            // the four replaceable fields
            assert(newdocs =~= docs_updated(olddocs, pdf_id as int, u)) by {
                assert(newdocs =~= olddocs.update(i as int, update_fields(d, u)));
                assert(forall|k: int|
                    0 <= k < olddocs.len() && k != i as int ==> (#[trigger] olddocs[k]).id
                        != pdf_id as int);
            }
            // row order, identifier and file-name uniqueness are untouched
            assert(forall|k: int|
                0 <= k < newdocs.len() ==> (#[trigger] newdocs[k]).id == olddocs[k].id && (
                newdocs[k]).file_name == olddocs[k].file_name && (newdocs[k]).time_added
                    == olddocs[k].time_added);
            // the tag table is the reconciled one
            assert(newtags == reconciled_tags(oldtags, req));
            // the relation table is the reconciled one
            assert(newrels == reconciled_rels(oldrels, pdf_id as int, req));
            // well-formedness of the reconciled relation table
            let keptrels = oldrels.filter(rel_not_for(pdf_id as int));
            let pairs = rel_pairs(pdf_id as int, req);
            lemma_filter_no_duplicates(oldrels, rel_not_for(pdf_id as int));
            lemma_dedup(req);
            assert(forall|a: int|
                0 <= a < pairs.len() ==> (#[trigger] pairs[a]) == (pdf_id as int, dd[a]));
            assert forall|a: int, b: int| 0 <= a < b < newrels.len() implies (
            #[trigger] newrels[a]) != (#[trigger] newrels[b]) by {
                if a < keptrels.len() && b >= keptrels.len() {
                    assert(rel_not_for(pdf_id as int)(keptrels[a]));
                    assert(newrels[a].0 != pdf_id as int && newrels[b].0 == pdf_id as int);
                } else if a >= keptrels.len() {
                    assert(dd[a - keptrels.len()] != dd[b - keptrels.len()]);
                }
            }
            // every relation still references an existing row and tag
            assert(forall|x: int| exists_doc(newdocs, x) <==> exists_doc(olddocs, x)) by {
                assert forall|x: int| exists_doc(olddocs, x) implies exists_doc(newdocs, x) by {
                    let w = choose|w: int| 0 <= w < olddocs.len() && olddocs[w].id == x;
                    assert(newdocs[w].id == x);
                }
                assert forall|x: int| exists_doc(newdocs, x) implies exists_doc(olddocs, x) by {
                    let w = choose|w: int| 0 <= w < newdocs.len() && newdocs[w].id == x;
                    assert(olddocs[w].id == x);
                }
            }
            assert(forall|t: Seq<char>| #[trigger] oldtags.contains(t) ==> newtags.contains(t))
                by {
                assert forall|t: Seq<char>| #[trigger] oldtags.contains(t) implies newtags.contains(
                    t,
                ) by {
                    let w = choose|w: int| 0 <= w < oldtags.len() && oldtags[w] == t;
                    assert(newtags[w] == t);
                }
            }
            assert forall|k: int| 0 <= k < newrels.len() implies exists_doc(
                newdocs,
                (#[trigger] newrels[k]).0,
            ) && newtags.contains(newrels[k].1) by {
                if k < keptrels.len() {
                    assert(keptrels.contains(keptrels[k]));
                    lemma_filter_subset(oldrels, rel_not_for(pdf_id as int), keptrels[k]);
                    let v = choose|v: int| 0 <= v < oldrels.len() && oldrels[v] == keptrels[k];
                    assert(exists_doc(olddocs, oldrels[v].0));
                    assert(oldtags.contains(oldrels[v].1));
                } else {
                    let t = dd[k - keptrels.len()];
                    assert(newrels[k] == (pdf_id as int, t));
                    assert(exists_doc(olddocs, pdf_id as int)) by {
                        assert(olddocs[i as int].id == pdf_id as int);
                    }
                    assert(dd.contains(t)) by {
                        assert(dd[k - keptrels.len()] == t);
                    }
                    let missing = tag_missing_from(oldtags);
                    if oldtags.contains(t) {
                    } else {
                        assert(missing(t));
                        let w = choose|w: int| 0 <= w < dd.len() && dd[w] == t;
                        assert(dd.filter(missing).contains(t));
                        let z = choose|z: int|
                            0 <= z < dd.filter(missing).len() && dd.filter(missing)[z] == t;
                        assert(newtags[oldtags.len() + z] == t);
                    }
                }
            }
            // the response mirrors the committed row and tag set
            assert(dto@ == metadata_of(update_fields(d, u), dd));
        }
        Ok(dto)
    }
}

} // verus!
